//! The lexer: turns the UTF-8 bytes of the input into tokens, one at a time.

use vstd::prelude::*;
use vstd::string::StringSliceAdditionalSpecFns;
use vstd::utf8::{decode_utf8, encode_utf8, is_char_boundary, is_continuation_byte, valid_utf8};
use crate::token::{keyword_token, lookup_ident, SpecToken, Token};

verus! {

/// The byte at index `i`, or 0 past either end of the input.
pub open spec fn byte_at(s: Seq<u8>, i: int) -> u8 {
    if 0 <= i < s.len() {
        s[i]
    } else {
        0
    }
}

/// Space, tab, line feed and carriage return.
pub open spec fn spec_is_whitespace(b: u8) -> bool {
    b == 32 || b == 9 || b == 10 || b == 13
}

/// ASCII letters and the underscore.
pub open spec fn spec_is_letter(b: u8) -> bool {
    (97 <= b <= 122) || (65 <= b <= 90) || b == 95
}

/// ASCII decimal digits.
pub open spec fn spec_is_digit(b: u8) -> bool {
    48 <= b <= 57
}

/// The first position at or after `p` that does not hold whitespace.
pub open spec fn skip_whitespace_from(s: Seq<u8>, p: int) -> int
    decreases s.len() - p,
{
    if 0 <= p < s.len() && spec_is_whitespace(s[p]) {
        skip_whitespace_from(s, p + 1)
    } else {
        p
    }
}

/// The first position at or after `p` that does not hold a letter.
pub open spec fn letters_end(s: Seq<u8>, p: int) -> int
    decreases s.len() - p,
{
    if 0 <= p < s.len() && spec_is_letter(s[p]) {
        letters_end(s, p + 1)
    } else {
        p
    }
}

/// The first position at or after `p` that does not hold a digit.
pub open spec fn digits_end(s: Seq<u8>, p: int) -> int
    decreases s.len() - p,
{
    if 0 <= p < s.len() && spec_is_digit(s[p]) {
        digits_end(s, p + 1)
    } else {
        p
    }
}

/// The first position at or after `p` that holds a double quote, a NUL byte,
/// or is the end of the input.
pub open spec fn string_end(s: Seq<u8>, p: int) -> int
    decreases s.len() - p,
{
    if 0 <= p < s.len() && s[p] != 34 && s[p] != 0 {
        string_end(s, p + 1)
    } else {
        p
    }
}

/// One step forward, but never past the end of the input.
pub open spec fn step(s: Seq<u8>, p: int) -> int {
    if p < s.len() {
        p + 1
    } else {
        p
    }
}

/// The value of a sequence of ASCII decimal digits.
pub open spec fn decimal_value(d: Seq<u8>) -> int
    decreases d.len(),
{
    if d.len() == 0 {
        0
    } else {
        decimal_value(d.drop_last()) * 10 + (d.last() - 48)
    }
}

/// The token that starts at position `p` (after any whitespace) and the
/// position just after it.
pub open spec fn lex_token(s: Seq<u8>, p: int) -> (SpecToken, int) {
    let q = skip_whitespace_from(s, p);
    let c = byte_at(s, q);
    if c == 61 {
        if byte_at(s, q + 1) == 61 {
            (SpecToken::Eq, q + 2)
        } else {
            (SpecToken::Assign, q + 1)
        }
    } else if c == 43 {
        (SpecToken::Plus, q + 1)
    } else if c == 45 {
        (SpecToken::Minus, q + 1)
    } else if c == 33 {
        if byte_at(s, q + 1) == 61 {
            (SpecToken::NotEq, q + 2)
        } else {
            (SpecToken::Bang, q + 1)
        }
    } else if c == 42 {
        (SpecToken::Asterisk, q + 1)
    } else if c == 47 {
        (SpecToken::Slash, q + 1)
    } else if c == 60 {
        (SpecToken::Lt, q + 1)
    } else if c == 62 {
        (SpecToken::Gt, q + 1)
    } else if c == 44 {
        (SpecToken::Comma, q + 1)
    } else if c == 59 {
        (SpecToken::Semicolon, q + 1)
    } else if c == 40 {
        (SpecToken::LParen, q + 1)
    } else if c == 41 {
        (SpecToken::RParen, q + 1)
    } else if c == 123 {
        (SpecToken::LBrace, q + 1)
    } else if c == 125 {
        (SpecToken::RBrace, q + 1)
    } else if c == 0 {
        (SpecToken::Eof, step(s, q))
    } else if c == 34 {
        let e = string_end(s, q + 1);
        (SpecToken::StringLiteral(decode_utf8(s.subrange(q + 1, e))), step(s, e))
    } else if spec_is_letter(c) {
        let e = letters_end(s, q);
        (keyword_token(decode_utf8(s.subrange(q, e))), e)
    } else if spec_is_digit(c) {
        let e = digits_end(s, q);
        (SpecToken::Int(decimal_value(s.subrange(q, e))), e)
    } else {
        (SpecToken::Illegal, q + 1)
    }
}

/// A token that the lexer can produce without its integer conversion failing.
pub open spec fn token_fits(t: SpecToken) -> bool {
    t is Int ==> t->Int_0 <= i64::MAX
}

/// Every token from position `p` to the end of the input can be produced
/// without its integer conversion failing.
pub open spec fn literals_fit_from(s: Seq<u8>, p: int) -> bool
    decreases s.len() - p,
{
    token_fits(lex_token(s, p).0) && (p < lex_token(s, p).1 <= s.len() ==> literals_fit_from(
        s,
        lex_token(s, p).1,
    ))
}

/// The lexer, reading the input byte by byte.
pub struct Lexer {
    input: String,
    position: usize,
    ch: u8,
}

impl Lexer {
    /// The UTF-8 bytes of the input.
    pub closed spec fn bytes(&self) -> Seq<u8> {
        encode_utf8(self.input@)
    }

    /// The position of the byte being looked at.
    pub closed spec fn pos(&self) -> int {
        self.position as int
    }

    /// The lexer's internal consistency: the position is within the input and
    /// the current byte is the byte there.
    pub closed spec fn wf(&self) -> bool {
        &&& self.position <= self.bytes().len()
        &&& self.ch == byte_at(self.bytes(), self.position as int)
    }

    /// A consistent lexer looks at a position within its input, which is
    /// valid UTF-8.
    pub proof fn lemma_wf(&self)
        requires
            self.wf(),
        ensures
            0 <= self.pos() <= self.bytes().len(),
            valid_utf8(self.bytes()),
    {
        vstd::utf8::encode_utf8_valid_utf8(self.input@);
    }

    /// Creates a lexer looking at the first byte of `input`.
    pub fn new(input: String) -> (lexer: Lexer)
        ensures
            lexer.wf(),
            lexer.bytes() == encode_utf8(input@),
            lexer.pos() == 0,
    {
        let ch = {
            let b = input.as_str().as_bytes();
            if 0 < b.len() {
                b[0]
            } else {
                0
            }
        };
        Lexer { input, position: 0, ch }
    }

    /// Whether the token that starts at the current position (after any
    /// whitespace) can be produced: it is not an integer literal too large
    /// for `i64`.
    fn next_fits(&self) -> (r: bool)
        requires
            self.wf(),
        ensures
            r == token_fits(lex_token(self.bytes(), self.pos()).0),
    {
        let ghost s = self.bytes();
        let b = self.input.as_str().as_bytes();
        proof {
            self.lemma_wf();
            lemma_skip_bounds(s, self.pos());
        }
        let mut q = self.position;
        while q < b.len() && (b[q] == 32 || b[q] == 9 || b[q] == 10 || b[q] == 13)
            invariant
                b@ == s,
                self.pos() <= q <= s.len(),
                skip_whitespace_from(s, q as int) == skip_whitespace_from(s, self.pos()),
            decreases s.len() - q,
        {
            q = q + 1;
        }
        if q < b.len() && is_digit(b[q]) {
            let ghost e = digits_end(s, q as int);
            proof {
                lemma_digits_prefix(s, q as int);
                assert(s.subrange(q as int, q as int) =~= Seq::<u8>::empty());
            }
            let mut n: i64 = 0;
            let mut i = q;
            while i < b.len() && is_digit(b[i])
                invariant
                    b@ == s,
                    s == self.bytes(),
                    q == skip_whitespace_from(s, self.pos()),
                    q < s.len(),
                    spec_is_digit(s[q as int]),
                    q <= i <= e,
                    e == digits_end(s, q as int),
                    e <= s.len(),
                    digits_end(s, i as int) == e,
                    forall|j: int| q <= j < e ==> spec_is_digit(#[trigger] s[j]),
                    n == decimal_value(s.subrange(q as int, i as int)),
                decreases s.len() - i,
            {
                let ghost whole = s.subrange(q as int, e);
                proof {
                    lemma_digits_prefix(s, i as int + 1);
                    assert(s.subrange(q as int, i + 1 as int).drop_last() =~= s.subrange(q as int, i as int));
                    assert(whole.subrange(0, i + 1 - q) =~= s.subrange(q as int, i + 1));
                    lemma_decimal_prefix_le(whole, i + 1 - q);
                    lemma_decimal_nonneg(s.subrange(q as int, i as int));
                }
                let d = (b[i] - 48) as i64;
                match n.checked_mul(10) {
                    None => {
                        return false;
                    },
                    Some(m) => match m.checked_add(d) {
                        None => {
                            return false;
                        },
                        Some(v) => {
                            n = v;
                        },
                    },
                }
                i = i + 1;
            }
            proof {
                assert(s.subrange(q as int, i as int) =~= s.subrange(q as int, e));
            }
            true
        } else {
            true
        }
    }

    /// Whether every token from the current position to the end of the
    /// input can be produced, that is, no integer literal there is too large
    /// for `i64`.
    pub fn literals_fit(&self) -> (r: bool)
        requires
            self.wf(),
        ensures
            r == literals_fit_from(self.bytes(), self.pos()),
    {
        let mut lx = Lexer { input: self.input.clone(), position: self.position, ch: self.ch };
        loop
            invariant
                lx.wf(),
                lx.bytes() == self.bytes(),
                literals_fit_from(self.bytes(), self.pos()) == literals_fit_from(lx.bytes(), lx.pos()),
            decreases lx.bytes().len() - lx.pos(),
        {
            proof {
                lx.lemma_wf();
                lemma_lex_progress(lx.bytes(), lx.pos());
            }
            if !lx.next_fits() {
                return false;
            }
            if lx.position >= lx.input.as_str().as_bytes().len() {
                return true;
            }
            lx.next_token();
        }
    }

    /// Moves one byte forward (never past the end) and updates the current byte.
    fn read_char(&mut self)
        requires
            old(self).wf(),
        ensures
            final(self).wf(),
            final(self).bytes() == old(self).bytes(),
            final(self).pos() == step(old(self).bytes(), old(self).pos()),
    {
        let b = self.input.as_str().as_bytes();
        if self.position < b.len() {
            self.position = self.position + 1;
        }
        if self.position < b.len() {
            self.ch = b[self.position];
        } else {
            self.ch = 0;
        }
    }

    /// The byte after the current one, or 0 past the end.
    fn peek_char(&self) -> (c: u8)
        requires
            self.wf(),
        ensures
            c == byte_at(self.bytes(), self.pos() + 1),
    {
        let b = self.input.as_str().as_bytes();
        if self.position < b.len() && self.position + 1 < b.len() {
            b[self.position + 1]
        } else {
            0
        }
    }

    /// Skips spaces, tabs, line feeds and carriage returns.
    fn skip_whitespace(&mut self)
        requires
            old(self).wf(),
        ensures
            final(self).wf(),
            final(self).bytes() == old(self).bytes(),
            final(self).pos() == skip_whitespace_from(old(self).bytes(), old(self).pos()),
    {
        while self.ch == 32 || self.ch == 9 || self.ch == 10 || self.ch == 13
            invariant
                self.wf(),
                self.bytes() == old(self).bytes(),
                skip_whitespace_from(self.bytes(), self.pos()) == skip_whitespace_from(
                    old(self).bytes(),
                    old(self).pos(),
                ),
            decreases self.bytes().len() - self.pos(),
        {
            self.read_char();
        }
    }

    /// Reads a run of letters starting at the current byte.
    fn read_identifier(&mut self) -> (ident: String)
        requires
            old(self).wf(),
            spec_is_letter(old(self).ch),
        ensures
            final(self).wf(),
            final(self).bytes() == old(self).bytes(),
            final(self).pos() == letters_end(old(self).bytes(), old(self).pos()),
            ident@ == decode_utf8(old(self).bytes().subrange(old(self).pos(), final(self).pos())),
    {
        let start = self.position;
        proof {
            self.lemma_wf();
        }
        while is_letter(self.ch)
            invariant
                self.wf(),
                self.bytes() == old(self).bytes(),
                start <= self.position,
                start < self.position ==> spec_is_letter(self.bytes()[self.pos() - 1]),
                letters_end(self.bytes(), self.pos()) == letters_end(old(self).bytes(), start as int),
            decreases self.bytes().len() - self.pos(),
        {
            self.read_char();
        }
        proof {
            self.lemma_wf();
            lemma_start_not_continuation(self.bytes(), start as int);
            if self.pos() < self.bytes().len() {
                lemma_ascii_then_not_continuation(self.bytes(), self.pos() - 1);
            }
        }
        substring(self.input.as_str(), start, self.position)
    }

    /// Reads a run of digits starting at the current byte and returns its value.
    fn read_number(&mut self) -> (n: i64)
        requires
            old(self).wf(),
            decimal_value(
                old(self).bytes().subrange(
                    old(self).pos(),
                    digits_end(old(self).bytes(), old(self).pos()),
                ),
            ) <= i64::MAX,
        ensures
            final(self).wf(),
            final(self).bytes() == old(self).bytes(),
            final(self).pos() == digits_end(old(self).bytes(), old(self).pos()),
            n == decimal_value(old(self).bytes().subrange(old(self).pos(), final(self).pos())),
    {
        let ghost s = self.bytes();
        let ghost e = digits_end(s, self.pos());
        let start = self.position;
        let mut n: i64 = 0;
        proof {
            self.lemma_wf();
            lemma_digits_prefix(s, start as int);
            assert(s.subrange(start as int, start as int) =~= Seq::<u8>::empty());
        }
        while is_digit(self.ch)
            invariant
                self.wf(),
                self.bytes() == s,
                start <= self.pos() <= e,
                e == digits_end(s, start as int),
                digits_end(s, self.pos()) == e,
                e <= s.len(),
                decimal_value(s.subrange(start as int, e)) <= i64::MAX,
                n == decimal_value(s.subrange(start as int, self.pos())),
            decreases self.bytes().len() - self.pos(),
        {
            proof {
                assert(self.pos() < s.len());
                lemma_digits_prefix(s, self.pos() + 1);
                lemma_digits_prefix(s, start as int);
                lemma_decimal_prefix_le(s.subrange(start as int, e), self.pos() + 1 - start);
                assert(s.subrange(start as int, e).subrange(0, self.pos() + 1 - start) =~= s.subrange(start as int, self.pos() + 1));
                assert(s.subrange(start as int, self.pos() + 1).drop_last() =~= s.subrange(start as int, self.pos()));
            }
            let d = (self.ch - 48) as i64;
            n = n * 10 + d;
            self.read_char();
        }
        n
    }

    /// Reads a string literal; the current byte is its opening quote.
    fn read_string(&mut self) -> (lit: String)
        requires
            old(self).wf(),
            old(self).ch == 34,
        ensures
            final(self).wf(),
            final(self).bytes() == old(self).bytes(),
            final(self).pos() == step(
                old(self).bytes(),
                string_end(old(self).bytes(), old(self).pos() + 1),
            ),
            lit@ == decode_utf8(
                old(self).bytes().subrange(
                    old(self).pos() + 1,
                    string_end(old(self).bytes(), old(self).pos() + 1),
                ),
            ),
    {
        proof {
            self.lemma_wf();
        }
        self.read_char();
        let start = self.position;
        while self.ch != 34 && self.ch != 0
            invariant
                self.wf(),
                self.bytes() == old(self).bytes(),
                start <= self.position,
                start == old(self).pos() + 1,
                string_end(self.bytes(), self.pos()) == string_end(old(self).bytes(), start as int),
            decreases self.bytes().len() - self.pos(),
        {
            self.read_char();
        }
        proof {
            self.lemma_wf();
            if start < self.bytes().len() {
                lemma_ascii_then_not_continuation(self.bytes(), start - 1);
            }
            lemma_start_not_continuation(self.bytes(), self.pos());
        }
        let lit = substring(self.input.as_str(), start, self.position);
        self.read_char();
        lit
    }

    /// Reads the token that starts at the current position (after any
    /// whitespace) and moves past it.
    pub fn next_token(&mut self) -> (tok: Token)
        requires
            old(self).wf(),
            token_fits(lex_token(old(self).bytes(), old(self).pos()).0),
        ensures
            final(self).wf(),
            final(self).bytes() == old(self).bytes(),
            tok@ == lex_token(old(self).bytes(), old(self).pos()).0,
            final(self).pos() == lex_token(old(self).bytes(), old(self).pos()).1,
    {
        self.skip_whitespace();
        proof {
            self.lemma_wf();
        }
        let tok = match self.ch {
            61 => {
                if self.peek_char() == 61 {
                    self.read_char();
                    Token::Eq
                } else {
                    Token::Assign
                }
            },
            43 => Token::Plus,
            45 => Token::Minus,
            33 => {
                if self.peek_char() == 61 {
                    self.read_char();
                    Token::NotEq
                } else {
                    Token::Bang
                }
            },
            42 => Token::Asterisk,
            47 => Token::Slash,
            60 => Token::Lt,
            62 => Token::Gt,
            44 => Token::Comma,
            59 => Token::Semicolon,
            40 => Token::LParen,
            41 => Token::RParen,
            123 => Token::LBrace,
            125 => Token::RBrace,
            0 => Token::Eof,
            34 => {
                let s = self.read_string();
                return Token::StringLiteral(s);
            },
            c => {
                if is_letter(c) {
                    let ident = self.read_identifier();
                    return lookup_ident(ident.as_str());
                } else if is_digit(c) {
                    let number = self.read_number();
                    return Token::Int(number);
                } else {
                    Token::Illegal
                }
            },
        };
        self.read_char();
        tok
    }
}

fn is_letter(ch: u8) -> (r: bool)
    ensures
        r == spec_is_letter(ch),
{
    (97 <= ch && ch <= 122) || (65 <= ch && ch <= 90) || ch == 95
}

fn is_digit(ch: u8) -> (r: bool)
    ensures
        r == spec_is_digit(ch),
{
    48 <= ch && ch <= 57
}

/// The characters held by the bytes `start..end` of `input`, where neither
/// end falls inside the encoding of a character.
fn substring(input: &str, start: usize, end: usize) -> (r: String)
    requires
        start <= end <= encode_utf8(input@).len(),
        start < encode_utf8(input@).len() ==> !is_continuation_byte(encode_utf8(input@)[start as int]),
        end < encode_utf8(input@).len() ==> !is_continuation_byte(encode_utf8(input@)[end as int]),
    ensures
        r@ == decode_utf8(encode_utf8(input@).subrange(start as int, end as int)),
{
    let ghost b = encode_utf8(input@);
    proof {
        vstd::utf8::encode_utf8_valid_utf8(input@);
        vstd::utf8::is_char_boundary_start_end_of_seq(b);
        if start < b.len() {
            vstd::utf8::is_char_boundary_iff_not_is_continuation_byte(b, start as int);
        }
        vstd::utf8::valid_utf8_split(b, start as int);
    }
    let (_, rest) = input.split_at(start);
    let ghost rb = b.subrange(start as int, b.len() as int);
    proof {
        assert(rest.spec_bytes() =~= rb);
        vstd::utf8::is_char_boundary_start_end_of_seq(rb);
        if end < b.len() {
            assert(rb[end - start] == b[end as int]);
            vstd::utf8::is_char_boundary_iff_not_is_continuation_byte(rb, end - start);
        }
    }
    let (mid, _) = rest.split_at(end - start);
    proof {
        assert(mid.spec_bytes() =~= b.subrange(start as int, end as int));
        vstd::utf8::encode_utf8_decode_utf8(mid@);
    }
    mid.to_string()
}

/// An ASCII byte, or the position just past the end, never falls inside the
/// encoding of a character.
proof fn lemma_start_not_continuation(s: Seq<u8>, i: int)
    requires
        0 <= i <= s.len(),
        i < s.len() ==> s[i] < 128,
    ensures
        i < s.len() ==> !is_continuation_byte(s[i]),
{
}

/// In valid UTF-8, the byte after an ASCII byte starts a character.
proof fn lemma_ascii_then_not_continuation(s: Seq<u8>, i: int)
    requires
        valid_utf8(s),
        0 <= i,
        i + 1 < s.len(),
        s[i] < 128,
    ensures
        !is_continuation_byte(s[i + 1]),
{
    vstd::utf8::is_char_boundary_iff_not_is_continuation_byte(s, i);
    vstd::utf8::valid_utf8_split(s, i);
    let t = s.subrange(i, s.len() as int);
    assert(t[0] == s[i]);
    assert(t[1] == s[i + 1]);
    reveal_with_fuel(is_char_boundary, 2);
    assert(is_char_boundary(vstd::utf8::pop_first_scalar(t), 0));
    assert(is_char_boundary(t, 1));
    vstd::utf8::is_char_boundary_iff_not_is_continuation_byte(t, 1);
}

/// Every byte before the end of a digit run is a digit.
proof fn lemma_digits_prefix(s: Seq<u8>, p: int)
    requires
        0 <= p <= s.len(),
    ensures
        p <= digits_end(s, p) <= s.len(),
        forall|i: int| p <= i < digits_end(s, p) ==> spec_is_digit(#[trigger] s[i]),
    decreases s.len() - p,
{
    if 0 <= p < s.len() && spec_is_digit(s[p]) {
        lemma_digits_prefix(s, p + 1);
    }
}

/// The value of a prefix of a digit sequence is at most the value of the whole.
proof fn lemma_decimal_prefix_le(d: Seq<u8>, k: int)
    requires
        0 <= k <= d.len(),
        forall|j: int| 0 <= j < d.len() ==> spec_is_digit(#[trigger] d[j]),
    ensures
        0 <= decimal_value(d.subrange(0, k)) <= decimal_value(d),
    decreases d.len(),
{
    if k == d.len() {
        assert(d.subrange(0, k) =~= d);
        lemma_decimal_nonneg(d);
    } else {
        let dl = d.drop_last();
        assert(dl.subrange(0, k) =~= d.subrange(0, k));
        lemma_decimal_prefix_le(dl, k);
        lemma_decimal_nonneg(dl);
    }
}

proof fn lemma_decimal_nonneg(d: Seq<u8>)
    requires
        forall|j: int| 0 <= j < d.len() ==> spec_is_digit(#[trigger] d[j]),
    ensures
        decimal_value(d) >= 0,
    decreases d.len(),
{
    if d.len() > 0 {
        lemma_decimal_nonneg(d.drop_last());
    }
}

proof fn lemma_skip_bounds(s: Seq<u8>, p: int)
    requires
        0 <= p <= s.len(),
    ensures
        p <= skip_whitespace_from(s, p) <= s.len(),
    decreases s.len() - p,
{
    if 0 <= p < s.len() && spec_is_whitespace(s[p]) {
        lemma_skip_bounds(s, p + 1);
    }
}

proof fn lemma_letters_bounds(s: Seq<u8>, p: int)
    requires
        0 <= p <= s.len(),
    ensures
        p <= letters_end(s, p) <= s.len(),
    decreases s.len() - p,
{
    if 0 <= p < s.len() && spec_is_letter(s[p]) {
        lemma_letters_bounds(s, p + 1);
    }
}

proof fn lemma_string_end_bounds(s: Seq<u8>, p: int)
    requires
        0 <= p <= s.len(),
    ensures
        p <= string_end(s, p) <= s.len(),
    decreases s.len() - p,
{
    if 0 <= p < s.len() && s[p] != 34 && s[p] != 0 {
        lemma_string_end_bounds(s, p + 1);
    }
}

/// Lexing never moves backwards or past the end; it always moves forward
/// before the end; and at the end it yields `Eof` and stays there.
pub proof fn lemma_lex_progress(s: Seq<u8>, p: int)
    requires
        0 <= p <= s.len(),
    ensures
        p <= lex_token(s, p).1 <= s.len(),
        p < s.len() ==> p < lex_token(s, p).1,
        p == s.len() ==> lex_token(s, p) == (SpecToken::Eof, p),
{
    lemma_skip_bounds(s, p);
    let q = skip_whitespace_from(s, p);
    if q < s.len() {
        lemma_letters_bounds(s, q);
        lemma_digits_prefix(s, q);
        lemma_string_end_bounds(s, q + 1);
        if spec_is_letter(s[q]) {
            assert(letters_end(s, q) == letters_end(s, q + 1));
            lemma_letters_bounds(s, q + 1);
        }
        if spec_is_digit(s[q]) {
            assert(digits_end(s, q) == digits_end(s, q + 1));
            lemma_digits_prefix(s, q + 1);
        }
    }
}

/// The position reached after lexing `k` tokens, one after the other, from
/// position `p`.
pub open spec fn pos_after(s: Seq<u8>, p: int, k: nat) -> int
    decreases k,
{
    if k == 0 {
        p
    } else {
        lex_token(s, pos_after(s, p, (k - 1) as nat)).1
    }
}

/// How many of the first `k` tokens lexed from position `p` are not `Eof`.
pub open spec fn non_eof_count(s: Seq<u8>, p: int, k: nat) -> nat
    decreases k,
{
    if k == 0 {
        0
    } else {
        non_eof_count(s, p, (k - 1) as nat) + if lex_token(s, pos_after(s, p, (k - 1) as nat)).0 is Eof {
            0nat
        } else {
            1nat
        }
    }
}

/// Every token other than `Eof` takes at least one byte: however many tokens
/// are lexed from position `p`, at most `s.len() - p` of them are not `Eof`.
pub proof fn lemma_non_eof_tokens_bounded(s: Seq<u8>, p: int, k: nat)
    requires
        0 <= p <= s.len(),
    ensures
        non_eof_count(s, p, k) <= s.len() - p,
        non_eof_count(s, p, k) <= pos_after(s, p, k) - p,
        p <= pos_after(s, p, k) <= s.len(),
    decreases k,
{
    if k > 0 {
        lemma_non_eof_tokens_bounded(s, p, (k - 1) as nat);
        lemma_lex_progress(s, pos_after(s, p, (k - 1) as nat));
    }
}

/// No NUL byte lies at or after position `p`.
pub open spec fn no_nul_from(s: Seq<u8>, p: int) -> bool {
    forall|i: int| p <= i < s.len() ==> #[trigger] s[i] != 0
}

/// Without NUL bytes, `Eof` comes only at the end of the input: lexing it
/// leaves the position at the end, where lexing gives `Eof` again.
pub proof fn lemma_eof_only_at_end(s: Seq<u8>, p: int)
    requires
        0 <= p <= s.len(),
        no_nul_from(s, p),
        lex_token(s, p).0 is Eof,
    ensures
        lex_token(s, p).1 == s.len(),
        lex_token(s, s.len() as int) == (SpecToken::Eof, s.len() as int),
{
    lemma_skip_bounds(s, p);
    lemma_lex_progress(s, s.len() as int);
}

/// Without NUL bytes, once lexing from `p` has given `Eof` at the `k`-th
/// token, every later token is `Eof` too.
pub proof fn lemma_eof_is_absorbing(s: Seq<u8>, p: int, k: nat, j: nat)
    requires
        0 <= p <= s.len(),
        no_nul_from(s, p),
        lex_token(s, pos_after(s, p, k)).0 is Eof,
    ensures
        lex_token(s, pos_after(s, p, k + j)).0 is Eof,
    decreases j,
{
    lemma_non_eof_tokens_bounded(s, p, k);
    if j > 0 {
        lemma_eof_is_absorbing(s, p, k, (j - 1) as nat);
        let q = pos_after(s, p, (k + j - 1) as nat);
        lemma_non_eof_tokens_bounded(s, p, (k + j - 1) as nat);
        lemma_eof_only_at_end(s, q);
        assert(pos_after(s, p, k + j) == s.len());
    }
}

/// Without NUL bytes, after `s.len() - p` tokens lexed from `p` the input is
/// used up: that token and every later one is `Eof`.
pub proof fn lemma_eof_after_input(s: Seq<u8>, p: int, j: nat)
    requires
        0 <= p <= s.len(),
        no_nul_from(s, p),
    ensures
        lex_token(s, pos_after(s, p, (s.len() - p) as nat + j)).0 is Eof,
{
    let n = (s.len() - p) as nat;
    lemma_steps_progress(s, p, n);
    lemma_non_eof_tokens_bounded(s, p, n);
    assert(pos_after(s, p, n) == s.len());
    lemma_lex_progress(s, s.len() as int);
    lemma_eof_is_absorbing(s, p, n, j);
}

/// Without NUL bytes, each token lexed from `p` moves at least one byte
/// forward until the input is used up.
proof fn lemma_steps_progress(s: Seq<u8>, p: int, k: nat)
    requires
        0 <= p <= s.len(),
        no_nul_from(s, p),
    ensures
        pos_after(s, p, k) == s.len() || pos_after(s, p, k) >= p + k,
    decreases k,
{
    if k > 0 {
        lemma_steps_progress(s, p, (k - 1) as nat);
        lemma_non_eof_tokens_bounded(s, p, (k - 1) as nat);
        let q = pos_after(s, p, (k - 1) as nat);
        lemma_lex_progress(s, q);
    }
}

/// An ASCII letter (upper or lower case) or the underscore.
pub open spec fn ascii_word_byte(b: u8) -> bool {
    ('a' as u8 <= b <= 'z' as u8) || ('A' as u8 <= b <= 'Z' as u8) || b == '_' as u8
}

/// A token that starts with a letter spans the whole run of letters, upper
/// and lower case and underscores alike, that begins there, and is the
/// keyword or identifier that the run spells.
pub proof fn lemma_word_token(s: Seq<u8>, p: int, e: int)
    requires
        0 <= p < e <= s.len(),
        forall|i: int| p <= i < e ==> ascii_word_byte(#[trigger] s[i]),
        e < s.len() ==> !ascii_word_byte(s[e]),
    ensures
        lex_token(s, p) == (keyword_token(decode_utf8(s.subrange(p, e))), e),
{
    assert(skip_whitespace_from(s, p) == p);
    lemma_word_run(s, p, e);
}

proof fn lemma_word_run(s: Seq<u8>, p: int, e: int)
    requires
        0 <= p <= e <= s.len(),
        forall|i: int| p <= i < e ==> ascii_word_byte(#[trigger] s[i]),
        e < s.len() ==> !ascii_word_byte(s[e]),
    ensures
        letters_end(s, p) == e,
    decreases e - p,
{
    if p < e {
        lemma_word_run(s, p + 1, e);
    }
}

/// Whitespace before a token does not change it: lexing from `p` and from
/// the first non-whitespace position after `p` give the same token and end.
pub proof fn lemma_whitespace_is_skipped(s: Seq<u8>, p: int)
    requires
        0 <= p <= s.len(),
    ensures
        lex_token(s, skip_whitespace_from(s, p)) == lex_token(s, p),
    decreases s.len() - p,
{
    if 0 <= p < s.len() && spec_is_whitespace(s[p]) {
        lemma_whitespace_is_skipped(s, p + 1);
    }
}

} // verus!
