//! Tokens produced by the lexer and consumed by the parser.

use vstd::prelude::*;
use vstd::utf8::encode_utf8;
use crate::text::{debug_quoted, debug_string, decimal_chars, decimal_string};

verus! {

/// The kinds of token that the lexer recognises.
#[derive(Debug, PartialEq)]
pub enum Token {
    /// A byte that starts no token.
    Illegal,
    /// The end of the input (or a NUL byte).
    Eof,
    /// An identifier, such as `x` or `add`.
    Ident(String),
    /// An integer literal, such as `5` or `42`.
    Int(i64),
    /// A string literal, such as `"hello"` (without the quotes).
    StringLiteral(String),
    Assign,
    Plus,
    Minus,
    Bang,
    Asterisk,
    Slash,
    Lt,
    Gt,
    Eq,
    NotEq,
    Comma,
    Semicolon,
    LParen,
    RParen,
    LBrace,
    RBrace,
    Function,
    Let,
    True,
    False,
    If,
    Else,
    Return,
}

/// The mathematical value of a token: strings are character sequences and
/// integers are unbounded, so that a literal too large for `i64` can still be
/// described.
pub enum SpecToken {
    Illegal,
    Eof,
    Ident(Seq<char>),
    Int(int),
    StringLiteral(Seq<char>),
    Assign,
    Plus,
    Minus,
    Bang,
    Asterisk,
    Slash,
    Lt,
    Gt,
    Eq,
    NotEq,
    Comma,
    Semicolon,
    LParen,
    RParen,
    LBrace,
    RBrace,
    Function,
    Let,
    True,
    False,
    If,
    Else,
    Return,
}

impl View for Token {
    type V = SpecToken;

    open spec fn view(&self) -> SpecToken {
        match self {
            Token::Illegal => SpecToken::Illegal,
            Token::Eof => SpecToken::Eof,
            Token::Ident(s) => SpecToken::Ident(s@),
            Token::Int(n) => SpecToken::Int(*n as int),
            Token::StringLiteral(s) => SpecToken::StringLiteral(s@),
            Token::Assign => SpecToken::Assign,
            Token::Plus => SpecToken::Plus,
            Token::Minus => SpecToken::Minus,
            Token::Bang => SpecToken::Bang,
            Token::Asterisk => SpecToken::Asterisk,
            Token::Slash => SpecToken::Slash,
            Token::Lt => SpecToken::Lt,
            Token::Gt => SpecToken::Gt,
            Token::Eq => SpecToken::Eq,
            Token::NotEq => SpecToken::NotEq,
            Token::Comma => SpecToken::Comma,
            Token::Semicolon => SpecToken::Semicolon,
            Token::LParen => SpecToken::LParen,
            Token::RParen => SpecToken::RParen,
            Token::LBrace => SpecToken::LBrace,
            Token::RBrace => SpecToken::RBrace,
            Token::Function => SpecToken::Function,
            Token::Let => SpecToken::Let,
            Token::True => SpecToken::True,
            Token::False => SpecToken::False,
            Token::If => SpecToken::If,
            Token::Else => SpecToken::Else,
            Token::Return => SpecToken::Return,
        }
    }
}

impl Clone for Token {
    fn clone(&self) -> (res: Self)
        ensures
            res@ == self@,
    {
        match self {
            Token::Illegal => Token::Illegal,
            Token::Eof => Token::Eof,
            Token::Ident(s) => Token::Ident(s.clone()),
            Token::Int(n) => Token::Int(*n),
            Token::StringLiteral(s) => Token::StringLiteral(s.clone()),
            Token::Assign => Token::Assign,
            Token::Plus => Token::Plus,
            Token::Minus => Token::Minus,
            Token::Bang => Token::Bang,
            Token::Asterisk => Token::Asterisk,
            Token::Slash => Token::Slash,
            Token::Lt => Token::Lt,
            Token::Gt => Token::Gt,
            Token::Eq => Token::Eq,
            Token::NotEq => Token::NotEq,
            Token::Comma => Token::Comma,
            Token::Semicolon => Token::Semicolon,
            Token::LParen => Token::LParen,
            Token::RParen => Token::RParen,
            Token::LBrace => Token::LBrace,
            Token::RBrace => Token::RBrace,
            Token::Function => Token::Function,
            Token::Let => Token::Let,
            Token::True => Token::True,
            Token::False => Token::False,
            Token::If => Token::If,
            Token::Else => Token::Else,
            Token::Return => Token::Return,
        }
    }
}

/// The keyword token that an identifier spells, or `Ident` of it.
pub open spec fn keyword_token(ident: Seq<char>) -> SpecToken {
    if ident =~= seq!['f', 'n'] {
        SpecToken::Function
    } else if ident =~= seq!['l', 'e', 't'] {
        SpecToken::Let
    } else if ident =~= seq!['t', 'r', 'u', 'e'] {
        SpecToken::True
    } else if ident =~= seq!['f', 'a', 'l', 's', 'e'] {
        SpecToken::False
    } else if ident =~= seq!['i', 'f'] {
        SpecToken::If
    } else if ident =~= seq!['e', 'l', 's', 'e'] {
        SpecToken::Else
    } else if ident =~= seq!['r', 'e', 't', 'u', 'r', 'n'] {
        SpecToken::Return
    } else {
        SpecToken::Ident(ident)
    }
}

/// Whether two strings hold the same characters, compared byte by byte.
pub fn str_eq(a: &str, b: &str) -> (res: bool)
    ensures
        res == (a@ == b@),
{
    let x = a.as_bytes();
    let y = b.as_bytes();
    proof {
        vstd::utf8::encode_utf8_decode_utf8(a@);
        vstd::utf8::encode_utf8_decode_utf8(b@);
    }
    if x.len() != y.len() {
        return false;
    }
    let mut i: usize = 0;
    while i < x.len()
        invariant
            x@ == encode_utf8(a@),
            y@ == encode_utf8(b@),
            x@.len() == y@.len(),
            i <= x@.len(),
            forall|j: int| 0 <= j < i ==> x@[j] == y@[j],
        decreases x@.len() - i,
    {
        if x[i] != y[i] {
            return false;
        }
        i = i + 1;
    }
    assert(x@ =~= y@);
    true
}

/// Returns the keyword token that `ident` spells, or `Token::Ident` holding
/// a copy of it.
pub fn lookup_ident(ident: &str) -> (tok: Token)
    ensures
        tok@ == keyword_token(ident@),
{
    proof {
        reveal_strlit("fn");
        reveal_strlit("let");
        reveal_strlit("true");
        reveal_strlit("false");
        reveal_strlit("if");
        reveal_strlit("else");
        reveal_strlit("return");
        assert("fn"@ =~= seq!['f', 'n']);
        assert("let"@ =~= seq!['l', 'e', 't']);
        assert("true"@ =~= seq!['t', 'r', 'u', 'e']);
        assert("false"@ =~= seq!['f', 'a', 'l', 's', 'e']);
        assert("if"@ =~= seq!['i', 'f']);
        assert("else"@ =~= seq!['e', 'l', 's', 'e']);
        assert("return"@ =~= seq!['r', 'e', 't', 'u', 'r', 'n']);
    }
    if str_eq(ident, "fn") {
        Token::Function
    } else if str_eq(ident, "let") {
        Token::Let
    } else if str_eq(ident, "true") {
        Token::True
    } else if str_eq(ident, "false") {
        Token::False
    } else if str_eq(ident, "if") {
        Token::If
    } else if str_eq(ident, "else") {
        Token::Else
    } else if str_eq(ident, "return") {
        Token::Return
    } else {
        Token::Ident(ident.to_string())
    }
}

/// A number for each kind of token, ignoring any payload.
pub open spec fn token_kind(t: SpecToken) -> u8 {
    match t {
        SpecToken::Illegal => 0,
        SpecToken::Eof => 1,
        SpecToken::Ident(..) => 2,
        SpecToken::Int(..) => 3,
        SpecToken::StringLiteral(..) => 4,
        SpecToken::Assign => 5,
        SpecToken::Plus => 6,
        SpecToken::Minus => 7,
        SpecToken::Bang => 8,
        SpecToken::Asterisk => 9,
        SpecToken::Slash => 10,
        SpecToken::Lt => 11,
        SpecToken::Gt => 12,
        SpecToken::Eq => 13,
        SpecToken::NotEq => 14,
        SpecToken::Comma => 15,
        SpecToken::Semicolon => 16,
        SpecToken::LParen => 17,
        SpecToken::RParen => 18,
        SpecToken::LBrace => 19,
        SpecToken::RBrace => 20,
        SpecToken::Function => 21,
        SpecToken::Let => 22,
        SpecToken::True => 23,
        SpecToken::False => 24,
        SpecToken::If => 25,
        SpecToken::Else => 26,
        SpecToken::Return => 27,
    }
}

fn kind_of(t: &Token) -> (k: u8)
    ensures
        k == token_kind(t@),
{
    match t {
        Token::Illegal => 0,
        Token::Eof => 1,
        Token::Ident(..) => 2,
        Token::Int(..) => 3,
        Token::StringLiteral(..) => 4,
        Token::Assign => 5,
        Token::Plus => 6,
        Token::Minus => 7,
        Token::Bang => 8,
        Token::Asterisk => 9,
        Token::Slash => 10,
        Token::Lt => 11,
        Token::Gt => 12,
        Token::Eq => 13,
        Token::NotEq => 14,
        Token::Comma => 15,
        Token::Semicolon => 16,
        Token::LParen => 17,
        Token::RParen => 18,
        Token::LBrace => 19,
        Token::RBrace => 20,
        Token::Function => 21,
        Token::Let => 22,
        Token::True => 23,
        Token::False => 24,
        Token::If => 25,
        Token::Else => 26,
        Token::Return => 27,
    }
}

/// Whether two tokens are the same, payload included.
pub fn tokens_equal(a: &Token, b: &Token) -> (r: bool)
    ensures
        r == (a@ == b@),
{
    if kind_of(a) != kind_of(b) {
        return false;
    }
    match a {
        Token::Ident(x) => match b {
            Token::Ident(y) => str_eq(x.as_str(), y.as_str()),
            _ => false,
        },
        Token::Int(x) => match b {
            Token::Int(y) => *x == *y,
            _ => false,
        },
        Token::StringLiteral(x) => match b {
            Token::StringLiteral(y) => str_eq(x.as_str(), y.as_str()),
            _ => false,
        },
        _ => {
            assert(a@ == b@) by {
                assert(!(b@ is Ident) && !(b@ is Int) && !(b@ is StringLiteral));
            }
            true
        },
    }
}

/// How a token is written by its derived `Debug`: the variant's name, with
/// the payload in brackets.
pub open spec fn token_debug(t: SpecToken) -> Seq<char> {
    match t {
        SpecToken::Illegal => "Illegal"@,
        SpecToken::Eof => "Eof"@,
        SpecToken::Ident(x) => "Ident("@ + debug_quoted(x) + ")"@,
        SpecToken::Int(v) => "Int("@ + decimal_chars(v) + ")"@,
        SpecToken::StringLiteral(x) => "StringLiteral("@ + debug_quoted(x) + ")"@,
        SpecToken::Assign => "Assign"@,
        SpecToken::Plus => "Plus"@,
        SpecToken::Minus => "Minus"@,
        SpecToken::Bang => "Bang"@,
        SpecToken::Asterisk => "Asterisk"@,
        SpecToken::Slash => "Slash"@,
        SpecToken::Lt => "Lt"@,
        SpecToken::Gt => "Gt"@,
        SpecToken::Eq => "Eq"@,
        SpecToken::NotEq => "NotEq"@,
        SpecToken::Comma => "Comma"@,
        SpecToken::Semicolon => "Semicolon"@,
        SpecToken::LParen => "LParen"@,
        SpecToken::RParen => "RParen"@,
        SpecToken::LBrace => "LBrace"@,
        SpecToken::RBrace => "RBrace"@,
        SpecToken::Function => "Function"@,
        SpecToken::Let => "Let"@,
        SpecToken::True => "True"@,
        SpecToken::False => "False"@,
        SpecToken::If => "If"@,
        SpecToken::Else => "Else"@,
        SpecToken::Return => "Return"@,
    }
}

/// The `Debug` form of a token.
pub fn token_debug_string(t: &Token) -> (r: String)
    ensures
        r@ == token_debug(t@),
{
    match t {
        Token::Illegal => "Illegal".to_string(),
        Token::Eof => "Eof".to_string(),
        Token::Ident(x) => {
            let mut r = "Ident(".to_string();
            let d = debug_string(x.as_str());
            r.append(d.as_str());
            r.append(")");
            r
        },
        Token::Int(v) => {
            let mut r = "Int(".to_string();
            let d = decimal_string(*v);
            r.append(d.as_str());
            r.append(")");
            r
        },
        Token::StringLiteral(x) => {
            let mut r = "StringLiteral(".to_string();
            let d = debug_string(x.as_str());
            r.append(d.as_str());
            r.append(")");
            r
        },
        Token::Assign => "Assign".to_string(),
        Token::Plus => "Plus".to_string(),
        Token::Minus => "Minus".to_string(),
        Token::Bang => "Bang".to_string(),
        Token::Asterisk => "Asterisk".to_string(),
        Token::Slash => "Slash".to_string(),
        Token::Lt => "Lt".to_string(),
        Token::Gt => "Gt".to_string(),
        Token::Eq => "Eq".to_string(),
        Token::NotEq => "NotEq".to_string(),
        Token::Comma => "Comma".to_string(),
        Token::Semicolon => "Semicolon".to_string(),
        Token::LParen => "LParen".to_string(),
        Token::RParen => "RParen".to_string(),
        Token::LBrace => "LBrace".to_string(),
        Token::RBrace => "RBrace".to_string(),
        Token::Function => "Function".to_string(),
        Token::Let => "Let".to_string(),
        Token::True => "True".to_string(),
        Token::False => "False".to_string(),
        Token::If => "If".to_string(),
        Token::Else => "Else".to_string(),
        Token::Return => "Return".to_string(),
    }
}

} // verus!
