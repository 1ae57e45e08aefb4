//! The parser: a Pratt parser that reads tokens from a lexer and builds the
//! syntax tree, collecting messages for the tokens it did not expect.
//!
//! Its behaviour is stated by spec functions over a `ParseState` (the current
//! and next token, the lexer's position and the messages so far); each
//! parsing method is proved to return what its spec function gives.

use vstd::prelude::*;
use crate::ast::{exprs_view, stmts_view, strings_view, Expression, Program, SpecExpression, SpecStatement, Statement};
use crate::lexer::{lemma_lex_progress, lex_token, token_fits, Lexer};
use crate::text::extends;
use crate::token::{token_debug, token_debug_string, tokens_equal, SpecToken, Token};

verus! {


/// Binding strength of operators; a higher value binds tighter.
pub enum Precedence {
    Lowest,
    Equals,
    LessGreater,
    Sum,
    Product,
    /// The operand of a prefix operator: it binds as tightly as `*` and
    /// `/`, so that only a call extends it.
    Prefix,
    Call,
}

impl Precedence {
    pub open spec fn level(self) -> u8 {
        match self {
            Precedence::Lowest => 0,
            Precedence::Equals => 1,
            Precedence::LessGreater => 2,
            Precedence::Sum => 3,
            Precedence::Product => 4,
            Precedence::Prefix => 4,
            Precedence::Call => 5,
        }
    }

    fn value(&self) -> (v: u8)
        ensures
            v == self.level(),
    {
        match self {
            Precedence::Lowest => 0,
            Precedence::Equals => 1,
            Precedence::LessGreater => 2,
            Precedence::Sum => 3,
            Precedence::Product => 4,
            Precedence::Prefix => 4,
            Precedence::Call => 5,
        }
    }
}

/// The precedence of the operator that a token stands for, `Lowest` for
/// tokens that are no operator.
pub open spec fn precedence_of(t: SpecToken) -> Precedence {
    match t {
        SpecToken::Eq | SpecToken::NotEq => Precedence::Equals,
        SpecToken::Lt | SpecToken::Gt => Precedence::LessGreater,
        SpecToken::Plus | SpecToken::Minus => Precedence::Sum,
        SpecToken::Asterisk | SpecToken::Slash => Precedence::Product,
        SpecToken::LParen => Precedence::Call,
        _ => Precedence::Lowest,
    }
}

fn token_precedence(token: &Token) -> (p: Precedence)
    ensures
        p == precedence_of(token@),
{
    match token {
        Token::Eq | Token::NotEq => Precedence::Equals,
        Token::Lt | Token::Gt => Precedence::LessGreater,
        Token::Plus | Token::Minus => Precedence::Sum,
        Token::Asterisk | Token::Slash => Precedence::Product,
        Token::LParen => Precedence::Call,
        _ => Precedence::Lowest,
    }
}

/// What the parser knows at a point: the current and the next token, the
/// position of the lexer, the messages collected, and whether an integer
/// literal too large for `i64` has been read (which the lexer cannot turn
/// into a token).
pub struct ParseState {
    pub cur: SpecToken,
    pub peek: SpecToken,
    pub pos: int,
    pub errors: Seq<Seq<char>>,
    pub int_overflow: bool,
}

/// The lexer's position lies within the input.
pub open spec fn valid_state(s: Seq<u8>, st: ParseState) -> bool {
    0 <= st.pos <= s.len()
}

/// A measure of the work left: it never grows as the parser moves on, and
/// shrinks with every step unless the input is used up.
pub open spec fn rank(s: Seq<u8>, st: ParseState) -> nat {
    if valid_state(s, st) {
        (3 * (s.len() - st.pos) + (if st.cur is Eof {
            0int
        } else {
            1int
        }) + (if st.peek is Eof {
            0int
        } else {
            2int
        })) as nat
    } else {
        0
    }
}

/// One step: the next token becomes the current one and the lexer reads
/// another.
pub open spec fn advance(s: Seq<u8>, st: ParseState) -> ParseState {
    ParseState {
        cur: st.peek,
        peek: lex_token(s, st.pos).0,
        pos: lex_token(s, st.pos).1,
        errors: st.errors,
        int_overflow: st.int_overflow || !token_fits(lex_token(s, st.pos).0),
    }
}

/// The message for a next token other than the expected one.
pub open spec fn expected_message(expected: SpecToken, got: SpecToken) -> Seq<char> {
    "expected next token to be "@ + token_debug(expected) + ", got "@ + token_debug(got)
        + " instead"@
}

pub open spec fn with_peek_error(st: ParseState, expected: SpecToken) -> ParseState {
    ParseState {
        cur: st.cur,
        peek: st.peek,
        pos: st.pos,
        errors: st.errors.push(expected_message(expected, st.peek)),
        int_overflow: st.int_overflow,
    }
}

/// Steps past the next token if it is the expected one; otherwise records a
/// message and stays.
pub open spec fn spec_expect_peek(s: Seq<u8>, st: ParseState, expected: SpecToken) -> (
    bool,
    ParseState,
) {
    if st.peek == expected {
        (true, advance(s, st))
    } else {
        (false, with_peek_error(st, expected))
    }
}

/// A statement's closing semicolon, which is optional: steps onto it if it
/// is the next token.
pub open spec fn spec_skip_semicolon(s: Seq<u8>, st: ParseState) -> ParseState {
    if st.peek is Semicolon {
        advance(s, st)
    } else {
        st
    }
}

/// `let <ident> = <expression>;`
pub open spec fn spec_parse_let(s: Seq<u8>, st: ParseState) -> (Option<SpecStatement>, ParseState)
    decreases rank(s, st), 7nat,
{
    if st.int_overflow {
        (None, st)
    } else if !(st.peek is Ident) {
        (None, with_peek_error(st, SpecToken::Ident(Seq::empty())))
    } else {
        let st1 = advance(s, st);
        let (ok, st2) = spec_expect_peek(s, st1, SpecToken::Assign);
        if !ok || !valid_state(s, st) {
            (None, st2)
        } else {
            proof {
                lemma_advance_rank(s, st);
                lemma_advance_rank(s, st1);
            }
            spec_let_value(s, st2, st.peek->Ident_0)
        }
    }
}

/// The value of a `let` that binds `name`; the current token is the `=`.
pub open spec fn spec_let_value(s: Seq<u8>, st: ParseState, name: Seq<char>) -> (
    Option<SpecStatement>,
    ParseState,
)
    decreases rank(s, st), 6nat,
{
    if st.int_overflow || !valid_state(s, st) || st.cur is Eof {
        (None, st)
    } else {
        let st1 = advance(s, st);
        proof {
            lemma_advance_rank(s, st);
        }
        let (v, st2) = spec_parse_expression(s, st1, Precedence::Lowest);
        match v {
            None => (None, st2),
            Some(v) => (
                Some(SpecStatement::Let { name: name, value: v }),
                spec_skip_semicolon(s, st2),
            ),
        }
    }
}

/// `return <expression>;`
pub open spec fn spec_parse_return(s: Seq<u8>, st: ParseState) -> (
    Option<SpecStatement>,
    ParseState,
)
    decreases rank(s, st), 7nat,
{
    if st.int_overflow {
        (None, st)
    } else if !valid_state(s, st) || st.cur is Eof {
        (None, st)
    } else {
        let st1 = advance(s, st);
        proof {
            lemma_advance_rank(s, st);
        }
        let (v, st2) = spec_parse_expression(s, st1, Precedence::Lowest);
        match v {
            None => (None, st2),
            Some(v) => (Some(SpecStatement::Return(v)), spec_skip_semicolon(s, st2)),
        }
    }
}

/// The list holding the statement, if there is one.
pub open spec fn opt_seq(o: Option<SpecStatement>) -> Seq<SpecStatement> {
    match o {
        Some(x) => seq![x],
        None => Seq::empty(),
    }
}

pub open spec fn spec_parse_statement(s: Seq<u8>, st: ParseState) -> (
    Option<SpecStatement>,
    ParseState,
)
    decreases rank(s, st), 8nat,
{
    if st.int_overflow {
        (None, st)
    } else if st.cur is Let {
        spec_parse_let(s, st)
    } else if st.cur is Return {
        spec_parse_return(s, st)
    } else {
        spec_parse_expression_statement(s, st)
    }
}

pub open spec fn spec_parse_expression_statement(s: Seq<u8>, st: ParseState) -> (
    Option<SpecStatement>,
    ParseState,
)
    decreases rank(s, st), 6nat,
{
    if st.int_overflow {
        (None, st)
    } else {
        let (e, st1) = spec_parse_expression(s, st, Precedence::Lowest);
        match e {
            None => (None, st1),
            Some(e) => {
                if st1.peek is Semicolon {
                    (Some(SpecStatement::ExpressionStmt(e)), advance(s, st1))
                } else {
                    (Some(SpecStatement::ExpressionStmt(e)), st1)
                }
            },
        }
    }
}

/// The expression that starts with the current token, with the operators
/// that follow it as long as they bind tighter than `prec`.
pub open spec fn spec_parse_expression(s: Seq<u8>, st: ParseState, prec: Precedence) -> (
    Option<SpecExpression>,
    ParseState,
)
    decreases rank(s, st), 5nat,
{
    if st.int_overflow {
        (None, st)
    } else {
        let (left, st1) = match st.cur {
            SpecToken::Ident(x) => (Some(SpecExpression::Identifier(x)), st),
            SpecToken::Int(n) => (Some(SpecExpression::IntegerLiteral(n)), st),
            SpecToken::StringLiteral(x) => (Some(SpecExpression::StringLiteral(x)), st),
            SpecToken::Bang => spec_parse_prefix(s, st, "!"@),
            SpecToken::Minus => spec_parse_prefix(s, st, "-"@),
            SpecToken::If => spec_parse_if(s, st),
            SpecToken::Function => spec_parse_function(s, st),
            SpecToken::True => (Some(SpecExpression::BooleanLiteral(true)), st),
            SpecToken::False => (Some(SpecExpression::BooleanLiteral(false)), st),
            _ => (None, st),
        };
        match left {
            None => (None, st1),
            Some(l) => {
                if rank(s, st1) <= rank(s, st) {
                    spec_infix_loop(s, st1, prec, l)
                } else {
                    (None, st1)
                }
            },
        }
    }
}

/// A prefix operator and its operand, which binds tighter than any infix
/// operator.
pub open spec fn spec_parse_prefix(s: Seq<u8>, st: ParseState, op: Seq<char>) -> (
    Option<SpecExpression>,
    ParseState,
)
    decreases rank(s, st), 4nat,
{
    let st0 = advance(s, st);
    if rank(s, st0) < rank(s, st) {
        let (r, st2) = spec_parse_expression(s, st0, Precedence::Prefix);
        match r {
            None => (None, st2),
            Some(r) => (Some(SpecExpression::Prefix { operator: op, right: Box::new(r) }), st2),
        }
    } else {
        (None, st0)
    }
}

/// Takes in the infix operators (and calls) that follow `left` while they
/// bind tighter than `prec`.
pub open spec fn spec_infix_loop(
    s: Seq<u8>,
    st: ParseState,
    prec: Precedence,
    left: SpecExpression,
) -> (Option<SpecExpression>, ParseState)
    decreases rank(s, st), 3nat,
{
    if st.int_overflow {
        (None, st)
    } else if !(st.peek is Semicolon) && prec.level() < precedence_of(st.peek).level() {
        let st1 = advance(s, st);
        if rank(s, st1) < rank(s, st) {
            let (r, st2) = if st1.cur is LParen {
                spec_parse_call(s, st1, left)
            } else {
                spec_parse_infix(s, st1, left)
            };
            match r {
                None => (None, st2),
                Some(e) => {
                    if rank(s, st2) < rank(s, st) {
                        spec_infix_loop(s, st2, prec, e)
                    } else {
                        (None, st2)
                    }
                },
            }
        } else {
            (None, st1)
        }
    } else {
        (Some(left), st)
    }
}

/// The operator that a token spells, if it is an infix operator.
pub open spec fn infix_operator(t: SpecToken) -> Option<Seq<char>> {
    match t {
        SpecToken::Plus => Some("+"@),
        SpecToken::Minus => Some("-"@),
        SpecToken::Asterisk => Some("*"@),
        SpecToken::Slash => Some("/"@),
        SpecToken::Eq => Some("=="@),
        SpecToken::NotEq => Some("!="@),
        SpecToken::Lt => Some("<"@),
        SpecToken::Gt => Some(">"@),
        _ => None,
    }
}

pub open spec fn spec_parse_infix(s: Seq<u8>, st: ParseState, left: SpecExpression) -> (
    Option<SpecExpression>,
    ParseState,
)
    decreases rank(s, st), 2nat,
{
    if st.int_overflow {
        (None, st)
    } else {
        match infix_operator(st.cur) {
            None => (None, st),
            Some(op) => {
                let st1 = advance(s, st);
                if rank(s, st1) < rank(s, st) {
                    let (r, st2) = spec_parse_expression(s, st1, precedence_of(st.cur));
                    match r {
                        None => (None, st2),
                        Some(r) => (
                            Some(
                                SpecExpression::Infix {
                                    left: Box::new(left),
                                    operator: op,
                                    right: Box::new(r),
                                },
                            ),
                            st2,
                        ),
                    }
                } else {
                    (None, st1)
                }
            },
        }
    }
}

pub open spec fn spec_parse_call(s: Seq<u8>, st: ParseState, function: SpecExpression) -> (
    Option<SpecExpression>,
    ParseState,
)
    decreases rank(s, st), 2nat,
{
    if st.int_overflow {
        (None, st)
    } else if st.peek is RParen {
        spec_call_close(s, st, function, Seq::empty())
    } else {
        let st1 = advance(s, st);
        if rank(s, st1) < rank(s, st) {
            let (a0, sta) = spec_parse_expression(s, st1, Precedence::Lowest);
            match a0 {
                None => (None, sta),
                Some(a) => {
                    if rank(s, sta) < rank(s, st) {
                        spec_call_args(s, sta, function, seq![a])
                    } else {
                        (None, sta)
                    }
                },
            }
        } else {
            (None, st1)
        }
    }
}

/// The closing bracket of a call, after its arguments `args`.
pub open spec fn spec_call_close(
    s: Seq<u8>,
    st: ParseState,
    function: SpecExpression,
    args: Seq<SpecExpression>,
) -> (Option<SpecExpression>, ParseState) {
    if st.int_overflow {
        (None, st)
    } else {
        let (ok, st3) = spec_expect_peek(s, st, SpecToken::RParen);
        if ok {
            (Some(SpecExpression::Call { function: Box::new(function), arguments: args }), st3)
        } else {
            (None, st3)
        }
    }
}

/// The arguments after the first, each after a comma, then the closing
/// bracket; `acc` holds the arguments read so far.
pub open spec fn spec_call_args(
    s: Seq<u8>,
    st: ParseState,
    function: SpecExpression,
    acc: Seq<SpecExpression>,
) -> (Option<SpecExpression>, ParseState)
    decreases rank(s, st), 1nat,
{
    if st.int_overflow {
        (None, st)
    } else if st.peek is Comma {
        let stb = advance(s, advance(s, st));
        if rank(s, stb) < rank(s, st) {
            let (a, stc) = spec_parse_expression(s, stb, Precedence::Lowest);
            match a {
                None => (None, stc),
                Some(a) => {
                    if rank(s, stc) < rank(s, st) {
                        spec_call_args(s, stc, function, acc.push(a))
                    } else {
                        (None, stc)
                    }
                },
            }
        } else {
            (None, stb)
        }
    } else {
        spec_call_close(s, st, function, acc)
    }
}

/// The statements up to the closing brace (or `Eof`), which stays current.
pub open spec fn spec_parse_block(s: Seq<u8>, st: ParseState) -> (
    Seq<SpecStatement>,
    ParseState,
)
    decreases rank(s, st), 9nat,
{
    if st.int_overflow || st.cur is RBrace || st.cur is Eof {
        (Seq::empty(), st)
    } else {
        let (stmt, st1) = spec_parse_statement(s, st);
        let st2 = advance(s, st1);
        if rank(s, st2) < rank(s, st) {
            let (rest, st3) = spec_parse_block(s, st2);
            (opt_seq(stmt) + rest, st3)
        } else {
            (opt_seq(stmt), st2)
        }
    }
}

pub open spec fn spec_parse_if(s: Seq<u8>, st: ParseState) -> (
    Option<SpecExpression>,
    ParseState,
)
    decreases rank(s, st), 4nat,
{
    if st.int_overflow {
        (None, st)
    } else {
        let (ok1, st1) = spec_expect_peek(s, st, SpecToken::LParen);
        if !ok1 {
            (None, st1)
        } else {
            spec_if_condition(s, advance(s, st1), st)
        }
    }
}

/// The condition of an `if`, which begins in `st2`; `st0` is the state in
/// which the `if` began.
pub open spec fn spec_if_condition(s: Seq<u8>, st2: ParseState, st0: ParseState) -> (
    Option<SpecExpression>,
    ParseState,
)
    decreases rank(s, st0), 3nat,
{
    if st2.int_overflow || !(rank(s, st2) < rank(s, st0)) {
        (None, st2)
    } else {
        let (c, st3) = spec_parse_expression(s, st2, Precedence::Lowest);
        match c {
            None => (None, st3),
            Some(c) => spec_if_braces(s, st3, st0, c),
        }
    }
}

/// `) {` after the condition `c`, then the consequence.
pub open spec fn spec_if_braces(
    s: Seq<u8>,
    st3: ParseState,
    st0: ParseState,
    c: SpecExpression,
) -> (Option<SpecExpression>, ParseState)
    decreases rank(s, st0), 2nat,
{
    if st3.int_overflow {
        (None, st3)
    } else {
        let (ok2, st4) = spec_expect_peek(s, st3, SpecToken::RParen);
        if !ok2 {
            (None, st4)
        } else {
            let (ok3, st5) = spec_expect_peek(s, st4, SpecToken::LBrace);
            if !ok3 {
                (None, st5)
            } else {
                spec_if_consequence(s, advance(s, st5), st0, c)
            }
        }
    }
}

/// The consequence block, which begins in `st6`, then the optional `else`.
pub open spec fn spec_if_consequence(
    s: Seq<u8>,
    st6: ParseState,
    st0: ParseState,
    c: SpecExpression,
) -> (Option<SpecExpression>, ParseState)
    decreases rank(s, st0), 1nat,
{
    if st6.int_overflow || !(rank(s, st6) < rank(s, st0)) {
        (None, st6)
    } else {
        let (cons, st7) = spec_parse_block(s, st6);
        spec_parse_else(s, st7, st0, c, cons)
    }
}

/// The rest of an `if` once its consequence `cons` is read: an optional
/// `else` block.
pub open spec fn spec_parse_else(
    s: Seq<u8>,
    st7: ParseState,
    st0: ParseState,
    c: SpecExpression,
    cons: Seq<SpecStatement>,
) -> (Option<SpecExpression>, ParseState)
    decreases rank(s, st0), 0nat,
{
    if st7.int_overflow {
        (None, st7)
    } else if st7.peek is Else {
        let st8 = advance(s, st7);
        let (ok4, st9) = spec_expect_peek(s, st8, SpecToken::LBrace);
        if !ok4 {
            (None, st9)
        } else {
            let st10 = advance(s, st9);
            if st10.int_overflow || !(rank(s, st10) < rank(s, st0)) {
                (None, st10)
            } else {
                let (alt, st11) = spec_parse_block(s, st10);
                (
                    Some(
                        SpecExpression::If {
                            condition: Box::new(c),
                            consequence: cons,
                            alternative: Some(alt),
                        },
                    ),
                    st11,
                )
            }
        }
    } else {
        (
            Some(SpecExpression::If { condition: Box::new(c), consequence: cons, alternative: None }),
            st7,
        )
    }
}

/// Adds the name held by an identifier token; other tokens add nothing.
pub open spec fn push_ident(t: SpecToken, acc: Seq<Seq<char>>) -> Seq<Seq<char>> {
    if t is Ident {
        acc.push(t->Ident_0)
    } else {
        acc
    }
}

/// The parameters after the first, each after a comma.
pub open spec fn spec_parse_params(s: Seq<u8>, st: ParseState, acc: Seq<Seq<char>>) -> (
    Seq<Seq<char>>,
    ParseState,
)
    decreases rank(s, st),
{
    if st.int_overflow || !(st.peek is Comma) {
        (acc, st)
    } else {
        let stb = advance(s, advance(s, st));
        if rank(s, stb) < rank(s, st) {
            spec_parse_params(s, stb, push_ident(stb.cur, acc))
        } else {
            (acc, stb)
        }
    }
}

pub open spec fn spec_parse_function(s: Seq<u8>, st: ParseState) -> (
    Option<SpecExpression>,
    ParseState,
)
    decreases rank(s, st), 4nat,
{
    if st.int_overflow {
        (None, st)
    } else {
        let (ok1, st1) = spec_expect_peek(s, st, SpecToken::LParen);
        if !ok1 {
            (None, st1)
        } else {
            let (params, st2) = if !(st1.peek is RParen) {
                let sta = advance(s, st1);
                spec_parse_params(s, sta, push_ident(sta.cur, Seq::empty()))
            } else {
                (Seq::empty(), st1)
            };
            spec_function_body(s, st2, st, params)
        }
    }
}

/// `) {` after the parameters, then the body.
pub open spec fn spec_function_body(
    s: Seq<u8>,
    st2: ParseState,
    st0: ParseState,
    params: Seq<Seq<char>>,
) -> (Option<SpecExpression>, ParseState)
    decreases rank(s, st0), 3nat,
{
    if st2.int_overflow {
        (None, st2)
    } else {
        let (ok2, st3) = spec_expect_peek(s, st2, SpecToken::RParen);
        if !ok2 {
            (None, st3)
        } else {
            let (ok3, st4) = spec_expect_peek(s, st3, SpecToken::LBrace);
            if !ok3 {
                (None, st4)
            } else {
                let st5 = advance(s, st4);
                if st5.int_overflow || !(rank(s, st5) < rank(s, st0)) {
                    (None, st5)
                } else {
                    let (body, st6) = spec_parse_block(s, st5);
                    (Some(SpecExpression::FunctionLiteral { parameters: params, body }), st6)
                }
            }
        }
    }
}

/// The statements of the whole program, up to `Eof`.
pub open spec fn spec_parse_program(s: Seq<u8>, st: ParseState) -> (
    Seq<SpecStatement>,
    ParseState,
)
    decreases rank(s, st),
{
    if st.int_overflow || st.cur is Eof {
        (Seq::empty(), st)
    } else {
        let (stmt, st1) = spec_parse_statement(s, st);
        let st2 = advance(s, st1);
        if rank(s, st2) < rank(s, st) {
            let (rest, st3) = spec_parse_program(s, st2);
            (opt_seq(stmt) + rest, st3)
        } else {
            (opt_seq(stmt), st2)
        }
    }
}

/// The binding strengths of the operators: `==` and `!=` bind alike and
/// least, then `<` and `>` alike, then `+` and `-` alike, then `*` and `/`
/// alike, then a call; every other token binds less than any operator.
pub proof fn lemma_operator_strengths(t: SpecToken)
    ensures
        precedence_of(SpecToken::Eq).level() == precedence_of(SpecToken::NotEq).level(),
        precedence_of(SpecToken::Lt).level() == precedence_of(SpecToken::Gt).level(),
        precedence_of(SpecToken::Plus).level() == precedence_of(SpecToken::Minus).level(),
        precedence_of(SpecToken::Asterisk).level() == precedence_of(SpecToken::Slash).level(),
        precedence_of(SpecToken::Eq).level() < precedence_of(SpecToken::Lt).level(),
        precedence_of(SpecToken::Lt).level() < precedence_of(SpecToken::Plus).level(),
        precedence_of(SpecToken::Plus).level() < precedence_of(SpecToken::Asterisk).level(),
        precedence_of(SpecToken::Asterisk).level() < precedence_of(SpecToken::LParen).level(),
        Precedence::Lowest.level() < precedence_of(SpecToken::Eq).level(),
        !(t is Eq || t is NotEq || t is Lt || t is Gt || t is Plus || t is Minus || t is Asterisk
            || t is Slash || t is LParen) ==> precedence_of(t).level() == Precedence::Lowest.level(),
{
}

/// An infix operator extends the expression being parsed at strength
/// `prec` exactly when it binds tighter: after `a - b`, a following `*` or
/// `/` takes `b` as its left operand, while a following `+` or `-` does not;
/// after `a * b`, no arithmetic operator takes `b`.
pub proof fn lemma_grouping(op: SpecToken, next: SpecToken)
    requires
        op is Plus || op is Minus || op is Asterisk || op is Slash,
        next is Plus || next is Minus || next is Asterisk || next is Slash,
    ensures
        precedence_of(op).level() < precedence_of(next).level() <==> ((op is Plus || op is Minus)
            && (next is Asterisk || next is Slash)),
{
}

/// The operators after an operand are taken in only while they bind tighter
/// than the expression being parsed: an operator that binds no tighter (one
/// of the same strength, so that operators of one strength group to the
/// left) or a semicolon ends it, and the operand is the result.
pub proof fn lemma_infix_loop_stops(s: Seq<u8>, st: ParseState, prec: Precedence, left: SpecExpression)
    requires
        !st.int_overflow,
        st.peek is Semicolon || precedence_of(st.peek).level() <= prec.level(),
    ensures
        spec_infix_loop(s, st, prec, left) == (Some(left), st),
{
}

/// A call binds tighter than every infix operator, and the operand of a
/// prefix operator binds at least as tightly as any of them: an infix
/// operator never extends a prefix operand, a call always does.
pub proof fn lemma_binding_strength(t: SpecToken)
    ensures
        !(t is LParen) ==> precedence_of(t).level() < precedence_of(SpecToken::LParen).level(),
        !(t is LParen) ==> precedence_of(t).level() <= Precedence::Prefix.level(),
        Precedence::Prefix.level() < precedence_of(SpecToken::LParen).level(),
{
}

/// The state of a new parser over a lexer at position `p`: it has read two
/// tokens.
pub open spec fn initial_state(s: Seq<u8>, p: int) -> ParseState {
    ParseState {
        cur: lex_token(s, p).0,
        peek: lex_token(s, lex_token(s, p).1).0,
        pos: lex_token(s, lex_token(s, p).1).1,
        errors: Seq::empty(),
        int_overflow: !token_fits(lex_token(s, p).0) || !token_fits(
            lex_token(s, lex_token(s, p).1).0,
        ),
    }
}

/// A step keeps the state valid and never increases the rank; it decreases
/// it unless both tokens are `Eof` and the input is used up.
pub proof fn lemma_advance_rank(s: Seq<u8>, st: ParseState)
    requires
        valid_state(s, st),
    ensures
        valid_state(s, advance(s, st)),
        rank(s, advance(s, st)) <= rank(s, st),
        !(st.cur is Eof) || !(st.peek is Eof) || st.pos < s.len() ==> rank(s, advance(s, st))
            < rank(s, st),
{
    lemma_lex_progress(s, st.pos);
}

/// The messages of `b` begin with those of `a`: later states only add
/// messages.
pub open spec fn keeps_errors(a: ParseState, b: ParseState) -> bool {
    extends(a.errors, b.errors)
}

/// An integer overflow, once read, stays in every later state.
pub proof fn lemma_overflow_sticky(s: Seq<u8>, st: ParseState)
    requires
        st.int_overflow,
    ensures
        advance(s, st).int_overflow,
{
}

/// An overflow stays through the parsing of statements.
pub proof fn lemma_sticky_statement(s: Seq<u8>, st: ParseState)
    requires
        st.int_overflow,
    ensures
        spec_parse_statement(s, st).1 == st,
        spec_parse_block(s, st).1 == st,
        spec_parse_program(s, st).1 == st,
{
}

/// An overflow stays through the parsing of an expression.
pub proof fn lemma_sticky_expression(s: Seq<u8>, st: ParseState)
    requires
        st.int_overflow,
    ensures
        forall|p: Precedence| #[trigger] spec_parse_expression(s, st, p).1 == st,
        forall|p: Precedence, l: SpecExpression| #[trigger] spec_infix_loop(s, st, p, l).1 == st,
        forall|l: SpecExpression| #[trigger] spec_parse_infix(s, st, l).1 == st,
        forall|l: SpecExpression| #[trigger] spec_parse_call(s, st, l).1 == st,
{
    assert forall|p: Precedence| #[trigger] spec_parse_expression(s, st, p).1 == st by {}
    assert forall|p: Precedence, l: SpecExpression| #[trigger] spec_infix_loop(s, st, p, l).1 == st by {}
    assert forall|l: SpecExpression| #[trigger] spec_parse_infix(s, st, l).1 == st by {}
    assert forall|l: SpecExpression| #[trigger] spec_parse_call(s, st, l).1 == st by {}
}

/// An overflow stays through the arguments of a call.
pub proof fn lemma_sticky_call(s: Seq<u8>, st: ParseState)
    requires
        st.int_overflow,
    ensures
        forall|f: SpecExpression, a: Seq<SpecExpression>| #[trigger] spec_call_args(s, st, f, a).1 == st,
        forall|f: SpecExpression, a: Seq<SpecExpression>| #[trigger] spec_call_close(s, st, f, a).1 == st,
{
    assert forall|f: SpecExpression, a: Seq<SpecExpression>| #[trigger] spec_call_args(s, st, f, a).1 == st by {}
    assert forall|f: SpecExpression, a: Seq<SpecExpression>| #[trigger] spec_call_close(s, st, f, a).1 == st by {}
}

/// An overflow stays through the stages of an `if`.
pub proof fn lemma_sticky_if(s: Seq<u8>, st: ParseState)
    requires
        st.int_overflow,
    ensures
        forall|st0: ParseState| #[trigger] spec_if_condition(s, st, st0).1 == st,
        forall|st0: ParseState, c: SpecExpression| #[trigger] spec_if_braces(s, st, st0, c).1 == st,
        forall|st0: ParseState, c: SpecExpression| #[trigger] spec_if_consequence(s, st, st0, c).1 == st,
        forall|st0: ParseState, c: SpecExpression, cons: Seq<SpecStatement>| #[trigger] spec_parse_else(s, st, st0, c, cons).1 == st,
{
    assert forall|st0: ParseState| #[trigger] spec_if_condition(s, st, st0).1 == st by {}
    assert forall|st0: ParseState, c: SpecExpression| #[trigger] spec_if_braces(s, st, st0, c).1 == st by {}
    assert forall|st0: ParseState, c: SpecExpression| #[trigger] spec_if_consequence(s, st, st0, c).1 == st by {}
    assert forall|st0: ParseState, c: SpecExpression, cons: Seq<SpecStatement>| #[trigger] spec_parse_else(s, st, st0, c, cons).1 == st by {}
}

/// An overflow stays through the parameters and body of a function literal.
pub proof fn lemma_sticky_function(s: Seq<u8>, st: ParseState)
    requires
        st.int_overflow,
    ensures
        forall|st0: ParseState, p: Seq<Seq<char>>| #[trigger] spec_function_body(s, st, st0, p).1 == st,
        forall|a: Seq<Seq<char>>| #[trigger] spec_parse_params(s, st, a).1 == st,
{
    assert forall|st0: ParseState, p: Seq<Seq<char>>| #[trigger] spec_function_body(s, st, st0, p).1 == st by {}
    assert forall|a: Seq<Seq<char>>| #[trigger] spec_parse_params(s, st, a).1 == st by {}
}

/// The view of an optional statement.
pub open spec fn opt_stmt_view(o: Option<Statement>) -> Option<SpecStatement> {
    match o {
        Some(x) => Some(x@),
        None => None,
    }
}

/// The view of an optional expression.
pub open spec fn opt_expr_view(o: Option<Expression>) -> Option<SpecExpression> {
    match o {
        Some(x) => Some(x@),
        None => None,
    }
}

/// The parser: reads tokens from its lexer, keeping the current and the next
/// one, and collects a message for every token it did not expect.
pub struct Parser {
    lexer: Lexer,
    current_token: Token,
    peek_token: Token,
    errors: Vec<String>,
}

impl View for Parser {
    type V = ParseState;

    closed spec fn view(&self) -> ParseState {
        ParseState {
            cur: self.current_token@,
            peek: self.peek_token@,
            pos: self.lexer.pos(),
            errors: strings_view(self.errors@),
            int_overflow: false,
        }
    }
}

impl Parser {
    /// The UTF-8 bytes of the input.
    pub closed spec fn bytes(&self) -> Seq<u8> {
        self.lexer.bytes()
    }

    /// The parser's lexer is consistent.
    pub closed spec fn wf(&self) -> bool {
        self.lexer.wf()
    }

    pub proof fn lemma_wf(&self)
        requires
            self.wf(),
        ensures
            valid_state(self.bytes(), self@),
            !self@.int_overflow,
    {
        self.lexer.lemma_wf();
    }

    /// Creates a parser and reads the first two tokens from `lexer`.
    pub fn new(lexer: Lexer) -> (p: Parser)
        requires
            lexer.wf(),
            !initial_state(lexer.bytes(), lexer.pos()).int_overflow,
        ensures
            p.wf(),
            p.bytes() == lexer.bytes(),
            p@ == initial_state(lexer.bytes(), lexer.pos()),
    {
        let mut lexer = lexer;
        let current_token = lexer.next_token();
        let peek_token = lexer.next_token();
        let p = Parser { lexer, current_token, peek_token, errors: Vec::new() };
        assert(strings_view(p.errors@) =~= Seq::<Seq<char>>::empty());
        p
    }

    /// The messages collected so far.
    pub fn errors(&self) -> (e: &Vec<String>)
        ensures
            strings_view(e@) == self@.errors,
    {
        &self.errors
    }

    fn next_token(&mut self)
        requires
            old(self).wf(),
            token_fits(lex_token(old(self).bytes(), old(self)@.pos).0),
        ensures
            final(self).wf(),
            final(self).bytes() == old(self).bytes(),
            final(self)@ == advance(old(self).bytes(), old(self)@),
            keeps_errors(old(self)@, final(self)@),
    {
        self.current_token = self.peek_token.clone();
        self.peek_token = self.lexer.next_token();
    }

    fn peek_error(&mut self, expected: &Token)
        requires
            old(self).wf(),
        ensures
            final(self).wf(),
            final(self).bytes() == old(self).bytes(),
            final(self)@ == with_peek_error(old(self)@, expected@),
            keeps_errors(old(self)@, final(self)@),
    {
        let mut msg = "expected next token to be ".to_string();
        let e = token_debug_string(expected);
        msg.append(e.as_str());
        msg.append(", got ");
        let g = token_debug_string(&self.peek_token);
        msg.append(g.as_str());
        msg.append(" instead");
        let ghost old_errors = self.errors@;
        self.errors.push(msg);
        assert(strings_view(self.errors@) =~= strings_view(old_errors).push(msg@));
    }

    fn expect_peek(&mut self, expected: Token) -> (ok: bool)
        requires
            old(self).wf(),
            old(self)@.peek == expected@ ==> token_fits(
                lex_token(old(self).bytes(), old(self)@.pos).0,
            ),
        ensures
            final(self).wf(),
            final(self).bytes() == old(self).bytes(),
            (ok, final(self)@) == spec_expect_peek(old(self).bytes(), old(self)@, expected@),
            keeps_errors(old(self)@, final(self)@),
    {
        if tokens_equal(&self.peek_token, &expected) {
            self.next_token();
            true
        } else {
            self.peek_error(&expected);
            false
        }
    }

    /// Steps onto the next token if it is a semicolon.
    fn skip_semicolon(&mut self)
        requires
            old(self).wf(),
            !spec_skip_semicolon(old(self).bytes(), old(self)@).int_overflow,
        ensures
            final(self).wf(),
            final(self).bytes() == old(self).bytes(),
            final(self)@ == spec_skip_semicolon(old(self).bytes(), old(self)@),
            rank(final(self).bytes(), final(self)@) <= rank(old(self).bytes(), old(self)@),
            keeps_errors(old(self)@, final(self)@),
    {
        if matches!(self.peek_token, Token::Semicolon) {
            proof {
                self.lemma_wf();
                lemma_advance_rank(self.bytes(), self@);
            }
            self.next_token();
        }
    }

    fn parse_let_statement(&mut self) -> (r: Option<Statement>)
        requires
            old(self).wf(),
            old(self)@.cur is Let,
            !spec_parse_let(old(self).bytes(), old(self)@).1.int_overflow,
        ensures
            final(self).wf(),
            final(self).bytes() == old(self).bytes(),
            (opt_stmt_view(r), final(self)@) == spec_parse_let(old(self).bytes(), old(self)@),
            rank(final(self).bytes(), final(self)@) <= rank(old(self).bytes(), old(self)@),
            keeps_errors(old(self)@, final(self)@),
        decreases rank(old(self).bytes(), old(self)@), 7nat,
    {
        let ghost s = self.bytes();
        let ghost st0 = self@;
        proof {
            self.lemma_wf();
            lemma_advance_rank(s, self@);
        }
        if !matches!(self.peek_token, Token::Ident(_)) {
            self.peek_error(&Token::Ident(String::new()));
            return None;
        }
        proof {
            let st1 = advance(s, self@);
            if st1.int_overflow {
                lemma_overflow_sticky(s, st1);
            }
        }
        self.next_token();
        let name = match &self.current_token {
            Token::Ident(x) => x.clone(),
            _ => {
                return None;
            },
        };
        proof {
            self.lemma_wf();
            lemma_advance_rank(s, self@);
        }
        if !self.expect_peek(Token::Assign) {
            return None;
        }
        proof {
            self.lemma_wf();
        }
        self.parse_let_value(name)
    }

    /// The value of a `let` that binds `name`; the current token is the `=`.
    fn parse_let_value(&mut self, name: String) -> (r: Option<Statement>)
        requires
            old(self).wf(),
            !(old(self)@.cur is Eof),
            !spec_let_value(old(self).bytes(), old(self)@, name@).1.int_overflow,
        ensures
            final(self).wf(),
            final(self).bytes() == old(self).bytes(),
            (opt_stmt_view(r), final(self)@) == spec_let_value(old(self).bytes(), old(self)@, name@),
            rank(final(self).bytes(), final(self)@) <= rank(old(self).bytes(), old(self)@),
            keeps_errors(old(self)@, final(self)@),
        decreases rank(old(self).bytes(), old(self)@), 6nat,
    {
        let ghost s = self.bytes();
        proof {
            self.lemma_wf();
            lemma_advance_rank(s, self@);
            if advance(s, self@).int_overflow {
                lemma_overflow_sticky(s, advance(s, self@));
                lemma_sticky_expression(s, advance(s, self@));
            }
        }
        self.next_token();
        let value = match self.parse_expression(Precedence::Lowest) {
            None => {
                return None;
            },
            Some(v) => v,
        };
        self.skip_semicolon();
        Some(Statement::Let { name, value })
    }

    fn parse_return_statement(&mut self) -> (r: Option<Statement>)
        requires
            old(self).wf(),
            old(self)@.cur is Return,
            !spec_parse_return(old(self).bytes(), old(self)@).1.int_overflow,
        ensures
            final(self).wf(),
            final(self).bytes() == old(self).bytes(),
            (opt_stmt_view(r), final(self)@) == spec_parse_return(old(self).bytes(), old(self)@),
            rank(final(self).bytes(), final(self)@) <= rank(old(self).bytes(), old(self)@),
            keeps_errors(old(self)@, final(self)@),
        decreases rank(old(self).bytes(), old(self)@), 7nat,
    {
        let ghost s = self.bytes();
        proof {
            self.lemma_wf();
            lemma_advance_rank(s, self@);
            if advance(s, self@).int_overflow {
                lemma_overflow_sticky(s, advance(s, self@));
                lemma_sticky_expression(s, advance(s, self@));
            }
        }
        self.next_token();
        let value = match self.parse_expression(Precedence::Lowest) {
            None => {
                return None;
            },
            Some(v) => v,
        };
        self.skip_semicolon();
        Some(Statement::Return(value))
    }

    fn parse_statement(&mut self) -> (r: Option<Statement>)
        requires
            old(self).wf(),
            !spec_parse_statement(old(self).bytes(), old(self)@).1.int_overflow,
        ensures
            final(self).wf(),
            final(self).bytes() == old(self).bytes(),
            (opt_stmt_view(r), final(self)@) == spec_parse_statement(old(self).bytes(), old(self)@),
            rank(final(self).bytes(), final(self)@) <= rank(old(self).bytes(), old(self)@),
            keeps_errors(old(self)@, final(self)@),
        decreases rank(old(self).bytes(), old(self)@), 8nat,
    {
        proof {
            self.lemma_wf();
        }
        if matches!(self.current_token, Token::Let) {
            self.parse_let_statement()
        } else if matches!(self.current_token, Token::Return) {
            self.parse_return_statement()
        } else {
            self.parse_expression_statement()
        }
    }

    fn parse_expression_statement(&mut self) -> (r: Option<Statement>)
        requires
            old(self).wf(),
            !spec_parse_expression_statement(old(self).bytes(), old(self)@).1.int_overflow,
        ensures
            final(self).wf(),
            final(self).bytes() == old(self).bytes(),
            (opt_stmt_view(r), final(self)@) == spec_parse_expression_statement(
                old(self).bytes(),
                old(self)@,
            ),
            rank(final(self).bytes(), final(self)@) <= rank(old(self).bytes(), old(self)@),
            keeps_errors(old(self)@, final(self)@),
        decreases rank(old(self).bytes(), old(self)@), 6nat,
    {
        let ghost s = self.bytes();
        proof {
            self.lemma_wf();
        }
        let expr = self.parse_expression(Precedence::Lowest);
        match expr {
            None => None,
            Some(e) => {
                if matches!(self.peek_token, Token::Semicolon) {
                    proof {
                        self.lemma_wf();
                        lemma_advance_rank(s, self@);
                    }
                    self.next_token();
                }
                Some(Statement::ExpressionStmt(e))
            },
        }
    }

    #[verifier::rlimit(30)]
    fn parse_expression(&mut self, precedence: Precedence) -> (r: Option<Expression>)
        requires
            old(self).wf(),
            !spec_parse_expression(old(self).bytes(), old(self)@, precedence).1.int_overflow,
        ensures
            final(self).wf(),
            final(self).bytes() == old(self).bytes(),
            (opt_expr_view(r), final(self)@) == spec_parse_expression(
                old(self).bytes(),
                old(self)@,
                precedence,
            ),
            rank(final(self).bytes(), final(self)@) <= rank(old(self).bytes(), old(self)@),
            keeps_errors(old(self)@, final(self)@),
        decreases rank(old(self).bytes(), old(self)@), 5nat,
    {
        let ghost s = self.bytes();
        let ghost st0 = self@;
        proof {
            self.lemma_wf();
        }
        let left: Option<Expression> = if matches!(self.current_token, Token::Ident(_)) {
            match &self.current_token {
                Token::Ident(x) => Some(Expression::Identifier(x.clone())),
                _ => None,
            }
        } else if matches!(self.current_token, Token::Int(_)) {
            match &self.current_token {
                Token::Int(n) => Some(Expression::IntegerLiteral(*n)),
                _ => None,
            }
        } else if matches!(self.current_token, Token::StringLiteral(_)) {
            match &self.current_token {
                Token::StringLiteral(x) => Some(Expression::StringLiteral(x.clone())),
                _ => None,
            }
        } else if matches!(self.current_token, Token::Bang) {
            self.parse_prefix_expression("!".to_string())
        } else if matches!(self.current_token, Token::Minus) {
            self.parse_prefix_expression("-".to_string())
        } else if matches!(self.current_token, Token::If) {
            self.parse_if_expression()
        } else if matches!(self.current_token, Token::Function) {
            self.parse_function_literal()
        } else if matches!(self.current_token, Token::True) {
            Some(Expression::BooleanLiteral(true))
        } else if matches!(self.current_token, Token::False) {
            Some(Expression::BooleanLiteral(false))
        } else {
            None
        };
        match left {
            None => None,
            Some(l) => {
                let mut left = l;
                while !matches!(self.peek_token, Token::Semicolon) && precedence.value()
                    < token_precedence(&self.peek_token).value()
                    invariant
                        self.wf(),
                        self.bytes() == s,
                        s == old(self).bytes(),
                        st0 == old(self)@,
                        spec_infix_loop(s, self@, precedence, left@) == spec_parse_expression(
                            s,
                            st0,
                            precedence,
                        ),
                        !spec_parse_expression(s, st0, precedence).1.int_overflow,
                        rank(s, self@) <= rank(s, st0),
                        keeps_errors(st0, self@),
                    decreases rank(s, self@),
                {
                    let ghost prev = self@;
                    proof {
                        self.lemma_wf();
                        lemma_advance_rank(s, self@);
                        assert(!(prev.peek is Eof));
                        assert(rank(s, advance(s, prev)) < rank(s, prev));
                        let st1 = advance(s, prev);
                        assert(spec_infix_loop(s, prev, precedence, left@) == {
                            let (r, st2) = if st1.cur is LParen {
                                spec_parse_call(s, st1, left@)
                            } else {
                                spec_parse_infix(s, st1, left@)
                            };
                            match r {
                                None => (None, st2),
                                Some(e) => {
                                    if rank(s, st2) < rank(s, prev) {
                                        spec_infix_loop(s, st2, precedence, e)
                                    } else {
                                        (None, st2)
                                    }
                                },
                            }
                        });
                        if st1.int_overflow {
                            lemma_overflow_sticky(s, st1);
                            lemma_sticky_expression(s, st1);
                            assert(false);
                        }
                    }
                    self.next_token();
                    let r = if matches!(self.current_token, Token::LParen) {
                        self.parse_call_expression(left)
                    } else {
                        self.parse_infix_expression(left)
                    };
                    match r {
                        None => {
                            return None;
                        },
                        Some(e) => {
                            left = e;
                        },
                    }
                }
                Some(left)
            },
        }
    }

    fn parse_prefix_expression(&mut self, op: String) -> (r: Option<Expression>)
        requires
            old(self).wf(),
            !(old(self)@.cur is Eof),
            !spec_parse_prefix(old(self).bytes(), old(self)@, op@).1.int_overflow,
        ensures
            final(self).wf(),
            final(self).bytes() == old(self).bytes(),
            (opt_expr_view(r), final(self)@) == spec_parse_prefix(
                old(self).bytes(),
                old(self)@,
                op@,
            ),
            rank(final(self).bytes(), final(self)@) <= rank(old(self).bytes(), old(self)@),
            keeps_errors(old(self)@, final(self)@),
        decreases rank(old(self).bytes(), old(self)@), 4nat,
    {
        let ghost s = self.bytes();
        proof {
            self.lemma_wf();
            lemma_advance_rank(s, self@);
            if advance(s, self@).int_overflow {
                lemma_overflow_sticky(s, advance(s, self@));
                lemma_sticky_expression(s, advance(s, self@));
            }
        }
        self.next_token();
        let right = self.parse_expression(Precedence::Prefix);
        match right {
            None => None,
            Some(r) => Some(Expression::Prefix { operator: op, right: Box::new(r) }),
        }
    }

    fn parse_infix_expression(&mut self, left: Expression) -> (r: Option<Expression>)
        requires
            old(self).wf(),
            !spec_parse_infix(old(self).bytes(), old(self)@, left@).1.int_overflow,
        ensures
            final(self).wf(),
            final(self).bytes() == old(self).bytes(),
            (opt_expr_view(r), final(self)@) == spec_parse_infix(
                old(self).bytes(),
                old(self)@,
                left@,
            ),
            rank(final(self).bytes(), final(self)@) <= rank(old(self).bytes(), old(self)@),
            keeps_errors(old(self)@, final(self)@),
        decreases rank(old(self).bytes(), old(self)@), 2nat,
    {
        let ghost s = self.bytes();
        proof {
            self.lemma_wf();
        }
        let op = match infix_operator_string(&self.current_token) {
            None => {
                return None;
            },
            Some(op) => op,
        };
        let prec = token_precedence(&self.current_token);
        proof {
            lemma_advance_rank(s, self@);
            if advance(s, self@).int_overflow {
                lemma_overflow_sticky(s, advance(s, self@));
                lemma_sticky_expression(s, advance(s, self@));
            }
        }
        self.next_token();
        let right = self.parse_expression(prec);
        match right {
            None => None,
            Some(r) => Some(Expression::Infix { left: Box::new(left), operator: op, right: Box::new(r) }),
        }
    }

    #[verifier::rlimit(30)]
    fn parse_call_expression(&mut self, function: Expression) -> (r: Option<Expression>)
        requires
            old(self).wf(),
            !(old(self)@.cur is Eof),
            !spec_parse_call(old(self).bytes(), old(self)@, function@).1.int_overflow,
        ensures
            final(self).wf(),
            final(self).bytes() == old(self).bytes(),
            (opt_expr_view(r), final(self)@) == spec_parse_call(
                old(self).bytes(),
                old(self)@,
                function@,
            ),
            rank(final(self).bytes(), final(self)@) <= rank(old(self).bytes(), old(self)@),
            keeps_errors(old(self)@, final(self)@),
        decreases rank(old(self).bytes(), old(self)@), 2nat,
    {
        let ghost s = self.bytes();
        let ghost st0 = self@;
        let ghost target = spec_parse_call(s, st0, function@);
        proof {
            self.lemma_wf();
        }
        if matches!(self.peek_token, Token::RParen) {
            let empty: Vec<Expression> = Vec::new();
            assert(exprs_view(empty@) =~= Seq::<SpecExpression>::empty());
            return self.finish_call(function, empty);
        }
        proof {
            lemma_advance_rank(s, st0);
            let st1 = advance(s, st0);
            if st1.int_overflow {
                lemma_overflow_sticky(s, st1);
                lemma_sticky_expression(s, st1);
                lemma_sticky_call(s, st1);
            }
            let sta = spec_parse_expression(s, st1, Precedence::Lowest).1;
            if sta.int_overflow {
                lemma_overflow_sticky(s, sta);
                lemma_sticky_expression(s, sta);
                lemma_sticky_call(s, sta);
            }
        }
        self.next_token();
        let a = match self.parse_expression(Precedence::Lowest) {
            None => {
                return None;
            },
            Some(a) => a,
        };
        let mut arguments: Vec<Expression> = Vec::new();
        arguments.push(a);
        proof {
            assert(arguments@.subrange(0, 0) =~= Seq::<Expression>::empty());
            assert(exprs_view(arguments@.subrange(0, 0)) =~= Seq::<SpecExpression>::empty());
            assert(exprs_view(arguments@) =~= seq![arguments@[0]@]);
            assert(target == spec_call_args(s, self@, function@, exprs_view(arguments@)));
        }
        while matches!(self.peek_token, Token::Comma)
            invariant
                self.wf(),
                self.bytes() == s,
                s == old(self).bytes(),
                target == spec_call_args(s, self@, function@, exprs_view(arguments@)),
                target == spec_parse_call(s, st0, function@),
                !target.1.int_overflow,
                rank(s, self@) < rank(s, st0),
                keeps_errors(st0, self@),
                st0 == old(self)@,
            decreases rank(s, self@),
        {
            let ghost prev = self@;
            proof {
                self.lemma_wf();
                lemma_advance_rank(s, prev);
                let a1 = advance(s, prev);
                lemma_advance_rank(s, a1);
                let stb = advance(s, a1);
                if a1.int_overflow {
                    lemma_overflow_sticky(s, a1);
                    lemma_sticky_expression(s, a1);
                    lemma_sticky_call(s, a1);
                }
                if stb.int_overflow {
                    lemma_overflow_sticky(s, stb);
                    lemma_sticky_expression(s, stb);
                    lemma_sticky_call(s, stb);
                }
                assert(rank(s, stb) < rank(s, prev));
                let stc = spec_parse_expression(s, stb, Precedence::Lowest).1;
                if stc.int_overflow {
                    lemma_overflow_sticky(s, stc);
                    lemma_sticky_expression(s, stc);
                    lemma_sticky_call(s, stc);
                }
                let acc = exprs_view(arguments@);
                assert(target == {
                    let (a, stc) = spec_parse_expression(s, stb, Precedence::Lowest);
                    match a {
                        None => (None, stc),
                        Some(a) => {
                            if rank(s, stc) < rank(s, prev) {
                                spec_call_args(s, stc, function@, acc.push(a))
                            } else {
                                (None, stc)
                            }
                        },
                    }
                });
            }
            self.next_token();
            self.next_token();
            let ghost stb = self@;
            let e = match self.parse_expression(Precedence::Lowest) {
                None => {
                    assert(spec_parse_expression(s, stb, Precedence::Lowest).0 is None);
                    assert(target == (None::<SpecExpression>, self@));
                    return None;
                },
                Some(e) => e,
            };
            proof {
                crate::ast::lemma_exprs_view_push(arguments@, e);
            }
            arguments.push(e);
        }
        self.finish_call(function, arguments)
    }

    fn finish_call(&mut self, function: Expression, arguments: Vec<Expression>) -> (r: Option<
        Expression,
    >)
        requires
            old(self).wf(),
            !spec_call_close(
                old(self).bytes(),
                old(self)@,
                function@,
                exprs_view(arguments@),
            ).1.int_overflow,
        ensures
            final(self).wf(),
            final(self).bytes() == old(self).bytes(),
            (opt_expr_view(r), final(self)@) == spec_call_close(
                old(self).bytes(),
                old(self)@,
                function@,
                exprs_view(arguments@),
            ),
            rank(final(self).bytes(), final(self)@) <= rank(old(self).bytes(), old(self)@),
            keeps_errors(old(self)@, final(self)@),
    {
        proof {
            self.lemma_wf();
            lemma_advance_rank(self.bytes(), self@);
        }
        if !self.expect_peek(Token::RParen) {
            return None;
        }
        Some(Expression::Call { function: Box::new(function), arguments })
    }

    #[verifier::spinoff_prover]
    #[verifier::rlimit(100)]
    fn parse_block_statements(&mut self) -> (r: Vec<Statement>)
        requires
            old(self).wf(),
            !spec_parse_block(old(self).bytes(), old(self)@).1.int_overflow,
        ensures
            final(self).wf(),
            final(self).bytes() == old(self).bytes(),
            (stmts_view(r@), final(self)@) == spec_parse_block(old(self).bytes(), old(self)@),
            rank(final(self).bytes(), final(self)@) <= rank(old(self).bytes(), old(self)@),
            keeps_errors(old(self)@, final(self)@),
        decreases rank(old(self).bytes(), old(self)@), 9nat,
    {
        let ghost s = self.bytes();
        let ghost st0 = self@;
        let mut statements: Vec<Statement> = Vec::new();
        proof {
            assert(stmts_view(statements@) =~= Seq::<SpecStatement>::empty());
            assert(Seq::<SpecStatement>::empty() + spec_parse_block(s, st0).0 =~= spec_parse_block(s, st0).0);
        }
        while !matches!(self.current_token, Token::RBrace) && !matches!(self.current_token, Token::Eof)
            invariant
                self.wf(),
                self.bytes() == s,
                s == old(self).bytes(),
                st0 == old(self)@,
                stmts_view(statements@) + spec_parse_block(s, self@).0 == spec_parse_block(s, st0).0,
                spec_parse_block(s, self@).1 == spec_parse_block(s, st0).1,
                !spec_parse_block(s, st0).1.int_overflow,
                rank(s, self@) <= rank(s, st0),
                keeps_errors(st0, self@),
            decreases rank(s, self@),
        {
                let ghost prev = self@;
            proof {
                self.lemma_wf();
                let st1 = spec_parse_statement(s, prev).1;
                if st1.int_overflow {
                    lemma_overflow_sticky(s, st1);
                    lemma_sticky_statement(s, st1);
                    lemma_overflow_sticky(s, advance(s, st1));
                    lemma_sticky_statement(s, advance(s, st1));
                }
            }
            let stmt = self.parse_statement();
            let ghost vstmt = opt_stmt_view(stmt);
            proof {
                self.lemma_wf();
                lemma_advance_rank(s, self@);
                if advance(s, self@).int_overflow {
                    lemma_overflow_sticky(s, advance(s, self@));
                    lemma_sticky_statement(s, advance(s, self@));
                }
            }
            let ghost before = statements@;
            match stmt {
                Some(x) => {
                    statements.push(x);
                },
                None => {},
            }
            self.next_token();
            proof {
                crate::ast::lemma_stmts_view_len(before);
                if vstmt is Some {
                    crate::ast::lemma_stmts_view_push(before, statements@.last());
                    assert(statements@ =~= before.push(statements@.last()));
                } else {
                    assert(statements@ =~= before);
                }
                let (rest, _) = spec_parse_block(s, self@);
                assert(stmts_view(before) + (opt_seq(vstmt) + rest) =~= stmts_view(statements@) + rest);
            }
        }
        proof {
            assert(stmts_view(statements@) + Seq::<SpecStatement>::empty() =~= stmts_view(statements@));
        }
        statements
    }

    fn parse_if_expression(&mut self) -> (r: Option<Expression>)
        requires
            old(self).wf(),
            !spec_parse_if(old(self).bytes(), old(self)@).1.int_overflow,
        ensures
            final(self).wf(),
            final(self).bytes() == old(self).bytes(),
            (opt_expr_view(r), final(self)@) == spec_parse_if(old(self).bytes(), old(self)@),
            rank(final(self).bytes(), final(self)@) <= rank(old(self).bytes(), old(self)@),
            keeps_errors(old(self)@, final(self)@),
        decreases rank(old(self).bytes(), old(self)@), 4nat,
    {
        let ghost s = self.bytes();
        let ghost st0 = self@;
        let ghost target = spec_parse_if(s, st0);
        proof {
            self.lemma_wf();
            lemma_advance_rank(s, st0);
            let st1 = advance(s, st0);
            if st1.int_overflow {
                lemma_overflow_sticky(s, st1);
                lemma_sticky_if(s, st1);
                lemma_overflow_sticky(s, advance(s, st1));
                lemma_sticky_if(s, advance(s, st1));
            }
        }
        if !self.expect_peek(Token::LParen) {
            return None;
        }
        proof {
            self.lemma_wf();
            lemma_advance_rank(s, self@);
            let st2 = advance(s, self@);
            if st2.int_overflow {
                lemma_overflow_sticky(s, st2);
                lemma_sticky_if(s, st2);
            }
            assert(target == spec_if_condition(s, st2, st0));
        }
        self.next_token();
        proof {
            self.lemma_wf();
            let st3 = spec_parse_expression(s, self@, Precedence::Lowest).1;
            if st3.int_overflow {
                lemma_overflow_sticky(s, st3);
                lemma_sticky_if(s, st3);
            }
        }
        let condition = match self.parse_expression(Precedence::Lowest) {
            None => {
                return None;
            },
            Some(c) => c,
        };
        proof {
            self.lemma_wf();
            assert(target == spec_if_braces(s, self@, st0, condition@));
        }
        self.parse_if_braces(condition, Ghost(st0))
    }

    #[verifier::rlimit(30)]
    fn parse_if_braces(&mut self, condition: Expression, Ghost(st0): Ghost<ParseState>) -> (r: Option<
        Expression,
    >)
        requires
            old(self).wf(),
            rank(old(self).bytes(), old(self)@) < rank(old(self).bytes(), st0),
            !spec_if_braces(old(self).bytes(), old(self)@, st0, condition@).1.int_overflow,
        ensures
            final(self).wf(),
            final(self).bytes() == old(self).bytes(),
            (opt_expr_view(r), final(self)@) == spec_if_braces(
                old(self).bytes(),
                old(self)@,
                st0,
                condition@,
            ),
            rank(final(self).bytes(), final(self)@) <= rank(old(self).bytes(), old(self)@),
            keeps_errors(old(self)@, final(self)@),
        decreases rank(old(self).bytes(), old(self)@), 3nat,
    {
        let ghost s = self.bytes();
        let ghost target = spec_if_braces(s, self@, st0, condition@);
        let ghost st3 = self@;
        proof {
            self.lemma_wf();
            lemma_advance_rank(s, self@);
            let st4 = advance(s, self@);
            lemma_advance_rank(s, st4);
            if st4.int_overflow {
                lemma_overflow_sticky(s, st4);
                lemma_sticky_statement(s, st4);
                lemma_sticky_if(s, st4);
                lemma_overflow_sticky(s, advance(s, st4));
                lemma_sticky_statement(s, advance(s, st4));
                lemma_sticky_if(s, advance(s, st4));
                lemma_overflow_sticky(s, with_peek_error(st4, SpecToken::LBrace));
                lemma_sticky_statement(s, with_peek_error(st4, SpecToken::LBrace));
                lemma_sticky_if(s, with_peek_error(st4, SpecToken::LBrace));
            }
        }
        if !self.expect_peek(Token::RParen) {
            return None;
        }
        proof {
            self.lemma_wf();
            lemma_advance_rank(s, self@);
            let st5 = advance(s, self@);
            lemma_advance_rank(s, st5);
            if st5.int_overflow {
                lemma_overflow_sticky(s, st5);
                lemma_sticky_statement(s, st5);
                lemma_sticky_if(s, st5);
                lemma_overflow_sticky(s, advance(s, st5));
                lemma_sticky_statement(s, advance(s, st5));
                lemma_sticky_if(s, advance(s, st5));
            }
        }
        if !self.expect_peek(Token::LBrace) {
            return None;
        }
        proof {
            self.lemma_wf();
            lemma_advance_rank(s, self@);
            let st6 = advance(s, self@);
            if st6.int_overflow {
                lemma_overflow_sticky(s, st6);
                lemma_sticky_statement(s, st6);
                lemma_sticky_if(s, st6);
            }
            assert(target == spec_if_consequence(s, st6, st0, condition@));
            assert(rank(s, st6) < rank(s, st3));
        }
        self.next_token();
        proof {
            self.lemma_wf();
            let st7 = spec_parse_block(s, self@).1;
            if st7.int_overflow {
                lemma_overflow_sticky(s, st7);
                lemma_sticky_statement(s, st7);
                lemma_sticky_if(s, st7);
            }
        }
        let consequence = self.parse_block_statements();
        proof {
            self.lemma_wf();
            assert(target == spec_parse_else(s, self@, st0, condition@, stmts_view(consequence@)));
        }
        self.parse_if_else(condition, consequence, Ghost(st0))
    }

    #[verifier::spinoff_prover]
    #[verifier::rlimit(100)]
    fn parse_if_else(
        &mut self,
        condition: Expression,
        consequence: Vec<Statement>,
        Ghost(st0): Ghost<ParseState>,
    ) -> (r: Option<Expression>)
        requires
            old(self).wf(),
            rank(old(self).bytes(), old(self)@) < rank(old(self).bytes(), st0),
            !spec_parse_else(
                old(self).bytes(),
                old(self)@,
                st0,
                condition@,
                stmts_view(consequence@),
            ).1.int_overflow,
        ensures
            final(self).wf(),
            final(self).bytes() == old(self).bytes(),
            (opt_expr_view(r), final(self)@) == spec_parse_else(
                old(self).bytes(),
                old(self)@,
                st0,
                condition@,
                stmts_view(consequence@),
            ),
            rank(final(self).bytes(), final(self)@) <= rank(old(self).bytes(), old(self)@),
            keeps_errors(old(self)@, final(self)@),
        decreases rank(old(self).bytes(), old(self)@), 3nat,
    {
        proof {
            self.lemma_wf();
        }
        if matches!(self.peek_token, Token::Else) {
            self.parse_else_block(condition, consequence, Ghost(st0))
        } else {
            Some(Expression::If { condition: Box::new(condition), consequence, alternative: None })
        }
    }

    #[verifier::rlimit(30)]
    fn parse_else_block(
        &mut self,
        condition: Expression,
        consequence: Vec<Statement>,
        Ghost(st0): Ghost<ParseState>,
    ) -> (r: Option<Expression>)
        requires
            old(self).wf(),
            old(self)@.peek is Else,
            rank(old(self).bytes(), old(self)@) < rank(old(self).bytes(), st0),
            !spec_parse_else(
                old(self).bytes(),
                old(self)@,
                st0,
                condition@,
                stmts_view(consequence@),
            ).1.int_overflow,
        ensures
            final(self).wf(),
            final(self).bytes() == old(self).bytes(),
            (opt_expr_view(r), final(self)@) == spec_parse_else(
                old(self).bytes(),
                old(self)@,
                st0,
                condition@,
                stmts_view(consequence@),
            ),
            rank(final(self).bytes(), final(self)@) <= rank(old(self).bytes(), old(self)@),
            keeps_errors(old(self)@, final(self)@),
        decreases rank(old(self).bytes(), old(self)@), 2nat,
    {
        let ghost s = self.bytes();
        let ghost st7 = self@;
        let ghost target = spec_parse_else(s, st7, st0, condition@, stmts_view(consequence@));
        proof {
            self.lemma_wf();
            lemma_advance_rank(s, self@);
            lemma_advance_rank(s, advance(s, self@));
        }
        self.next_token();
        let ghost st8 = self@;
        if !self.expect_peek(Token::LBrace) {
            return None;
        }
        let ghost st9 = self@;
        proof {
            self.lemma_wf();
            lemma_advance_rank(s, self@);
            assert(target == {
                let st10 = advance(s, st9);
                if st10.int_overflow || !(rank(s, st10) < rank(s, st0)) {
                    (None, st10)
                } else {
                    let (alt, st11) = spec_parse_block(s, st10);
                    (
                        Some(
                            SpecExpression::If {
                                condition: Box::new(condition@),
                                consequence: stmts_view(consequence@),
                                alternative: Some(alt),
                            },
                        ),
                        st11,
                    )
                }
            });
        }
        self.next_token();
        let alternative = self.parse_block_statements();
        Some(
            Expression::If {
                condition: Box::new(condition),
                consequence,
                alternative: Some(alternative),
            },
        )
    }

    #[verifier::rlimit(100)]
    fn parse_function_literal(&mut self) -> (r: Option<Expression>)
        requires
            old(self).wf(),
            !spec_parse_function(old(self).bytes(), old(self)@).1.int_overflow,
        ensures
            final(self).wf(),
            final(self).bytes() == old(self).bytes(),
            (opt_expr_view(r), final(self)@) == spec_parse_function(old(self).bytes(), old(self)@),
            rank(final(self).bytes(), final(self)@) <= rank(old(self).bytes(), old(self)@),
            keeps_errors(old(self)@, final(self)@),
        decreases rank(old(self).bytes(), old(self)@), 4nat,
    {
        let ghost s = self.bytes();
        let ghost st0 = self@;
        let ghost target = spec_parse_function(s, st0);
        proof {
            self.lemma_wf();
            lemma_advance_rank(s, st0);
            let st1 = advance(s, st0);
            if st1.int_overflow {
                lemma_overflow_sticky(s, st1);
                lemma_sticky_function(s, st1);
                lemma_overflow_sticky(s, advance(s, st1));
                lemma_sticky_function(s, advance(s, st1));
            }
        }
        if !self.expect_peek(Token::LParen) {
            return None;
        }
        let ghost st1 = self@;
        let ghost params_target = if !(st1.peek is RParen) {
            let sta = advance(s, st1);
            spec_parse_params(s, sta, push_ident(sta.cur, Seq::empty()))
        } else {
            (Seq::<Seq<char>>::empty(), st1)
        };
        proof {
            self.lemma_wf();
            assert(target == spec_function_body(s, params_target.1, st0, params_target.0));
            if params_target.1.int_overflow {
                lemma_overflow_sticky(s, params_target.1);
                lemma_sticky_function(s, params_target.1);
            }
        }
        let mut parameters: Vec<String> = Vec::new();
        if !matches!(self.peek_token, Token::RParen) {
            proof {
                lemma_advance_rank(s, self@);
                let sta = advance(s, self@);
                if sta.int_overflow {
                    lemma_overflow_sticky(s, sta);
                    lemma_sticky_function(s, sta);
                }
            }
            self.next_token();
            match &self.current_token {
                Token::Ident(x) => {
                    parameters.push(x.clone());
                },
                _ => {},
            }
            proof {
                assert(strings_view(parameters@) =~= push_ident(self@.cur, Seq::empty()));
            }
            while matches!(self.peek_token, Token::Comma)
                invariant
                    self.wf(),
                    self.bytes() == s,
                    s == old(self).bytes(),
                    spec_parse_params(s, self@, strings_view(parameters@)) == params_target,
                    !params_target.1.int_overflow,
                    rank(s, self@) < rank(s, st0),
                    keeps_errors(st0, self@),
                decreases rank(s, self@),
            {
                let ghost prev = self@;
                proof {
                    self.lemma_wf();
                    lemma_advance_rank(s, prev);
                    let a1 = advance(s, prev);
                    lemma_advance_rank(s, a1);
                    let stb = advance(s, a1);
                    if a1.int_overflow {
                        lemma_overflow_sticky(s, a1);
                        lemma_sticky_function(s, a1);
                    }
                    if stb.int_overflow {
                        lemma_overflow_sticky(s, stb);
                        lemma_sticky_function(s, stb);
                    }
                    assert(rank(s, stb) < rank(s, prev));
                    assert(params_target == spec_parse_params(
                        s,
                        stb,
                        push_ident(stb.cur, strings_view(parameters@)),
                    ));
                }
                self.next_token();
                self.next_token();
                let ghost before = parameters@;
                match &self.current_token {
                    Token::Ident(x) => {
                        parameters.push(x.clone());
                    },
                    _ => {},
                }
                proof {
                    assert(strings_view(parameters@) =~= push_ident(self@.cur, strings_view(before)));
                }
            }
        }
        proof {
            self.lemma_wf();
            assert(self@ == params_target.1);
            assert(strings_view(parameters@) == params_target.0);
            lemma_advance_rank(s, self@);
            let st3 = advance(s, self@);
            lemma_advance_rank(s, st3);
            if st3.int_overflow {
                lemma_overflow_sticky(s, st3);
                lemma_sticky_function(s, st3);
                lemma_overflow_sticky(s, advance(s, st3));
                lemma_sticky_function(s, advance(s, st3));
                lemma_overflow_sticky(s, with_peek_error(st3, SpecToken::LBrace));
                lemma_sticky_function(s, with_peek_error(st3, SpecToken::LBrace));
            }
        }
        if !self.expect_peek(Token::RParen) {
            return None;
        }
        proof {
            self.lemma_wf();
            lemma_advance_rank(s, self@);
            let st4 = advance(s, self@);
            lemma_advance_rank(s, st4);
            if st4.int_overflow {
                lemma_overflow_sticky(s, st4);
                lemma_sticky_function(s, st4);
                lemma_overflow_sticky(s, advance(s, st4));
                lemma_sticky_function(s, advance(s, st4));
            }
        }
        if !self.expect_peek(Token::LBrace) {
            return None;
        }
        proof {
            self.lemma_wf();
            lemma_advance_rank(s, self@);
        }
        self.next_token();
        let body = self.parse_block_statements();
        Some(Expression::FunctionLiteral { parameters, body })
    }

    /// Parses statements until the current token is `Eof`. Statements that
    /// fail to parse are left out, and parsing goes on after them.
    #[verifier::spinoff_prover]
    #[verifier::rlimit(60)]
    pub fn parse_program(&mut self) -> (program: Program)
        requires
            old(self).wf(),
            !spec_parse_program(old(self).bytes(), old(self)@).1.int_overflow,
        ensures
            final(self).wf(),
            final(self).bytes() == old(self).bytes(),
            program@ == spec_parse_program(old(self).bytes(), old(self)@).0,
            final(self)@ == spec_parse_program(old(self).bytes(), old(self)@).1,
            final(self)@.cur is Eof,
            keeps_errors(old(self)@, final(self)@),
    {
        let ghost s = self.bytes();
        let ghost st0 = self@;
        let mut statements: Vec<Statement> = Vec::new();
        proof {
            assert(stmts_view(statements@) =~= Seq::<SpecStatement>::empty());
            assert(Seq::<SpecStatement>::empty() + spec_parse_program(s, st0).0 =~= spec_parse_program(s, st0).0);
        }
        while !matches!(self.current_token, Token::Eof)
            invariant
                self.wf(),
                self.bytes() == s,
                s == old(self).bytes(),
                st0 == old(self)@,
                stmts_view(statements@) + spec_parse_program(s, self@).0 == spec_parse_program(s, st0).0,
                spec_parse_program(s, self@).1 == spec_parse_program(s, st0).1,
                !spec_parse_program(s, st0).1.int_overflow,
                keeps_errors(st0, self@),
            decreases rank(s, self@),
        {
            let ghost prev = self@;
            proof {
                self.lemma_wf();
                let st1 = spec_parse_statement(s, prev).1;
                if st1.int_overflow {
                    lemma_overflow_sticky(s, st1);
                    lemma_sticky_statement(s, st1);
                    lemma_overflow_sticky(s, advance(s, st1));
                    lemma_sticky_statement(s, advance(s, st1));
                }
            }
            let stmt = self.parse_statement();
            let ghost vstmt = opt_stmt_view(stmt);
            proof {
                self.lemma_wf();
                lemma_advance_rank(s, self@);
                if advance(s, self@).int_overflow {
                    lemma_overflow_sticky(s, advance(s, self@));
                    lemma_sticky_statement(s, advance(s, self@));
                }
            }
            let ghost before = statements@;
            match stmt {
                Some(x) => {
                    statements.push(x);
                },
                None => {},
            }
            self.next_token();
            proof {
                crate::ast::lemma_stmts_view_len(before);
                if vstmt is Some {
                    crate::ast::lemma_stmts_view_push(before, statements@.last());
                    assert(statements@ =~= before.push(statements@.last()));
                } else {
                    assert(statements@ =~= before);
                }
                let (rest, _) = spec_parse_program(s, self@);
                assert(stmts_view(before) + (opt_seq(vstmt) + rest) =~= stmts_view(statements@) + rest);
            }
        }
        proof {
            assert(stmts_view(statements@) + Seq::<SpecStatement>::empty() =~= stmts_view(statements@));
        }
        Program { statements }
    }

}

/// The operator string of an infix-operator token.
fn infix_operator_string(t: &Token) -> (r: Option<String>)
    ensures
        match r {
            Some(x) => infix_operator(t@) == Some(x@),
            None => infix_operator(t@) is None,
        },
{
    match t {
        Token::Plus => Some("+".to_string()),
        Token::Minus => Some("-".to_string()),
        Token::Asterisk => Some("*".to_string()),
        Token::Slash => Some("/".to_string()),
        Token::Eq => Some("==".to_string()),
        Token::NotEq => Some("!=".to_string()),
        Token::Lt => Some("<".to_string()),
        Token::Gt => Some(">".to_string()),
        _ => None,
    }
}

} // verus!

