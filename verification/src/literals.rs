//! Integer literals and the parser: where every integer literal of the input
//! fits in `i64`, the lexer's conversion never fails while a parser reads
//! the input, so the preconditions of `Parser::new` and
//! `Parser::parse_program` hold.

use vstd::prelude::*;
use crate::ast::{SpecExpression, SpecStatement};
use crate::lexer::{lemma_lex_progress, lex_token, literals_fit_from, token_fits};
use crate::parser::{
    advance, infix_operator, initial_state, lemma_advance_rank, precedence_of, push_ident, rank,
    spec_call_args, spec_expect_peek, spec_function_body, spec_if_braces, spec_if_condition,
    spec_if_consequence, spec_infix_loop, spec_parse_block, spec_parse_call,
    spec_parse_expression, spec_parse_expression_statement, spec_parse_function, spec_parse_if,
    spec_parse_else, spec_parse_infix, spec_parse_let, spec_let_value, spec_parse_params, spec_parse_prefix, spec_parse_program,
    spec_parse_return, spec_parse_statement, spec_skip_semicolon, valid_state, ParseState,
    Precedence,
};
use crate::token::SpecToken;

verus! {

/// A state reached without a failed conversion, from which every remaining
/// token can be produced.
pub open spec fn fit_state(s: Seq<u8>, st: ParseState) -> bool {
    &&& valid_state(s, st)
    &&& !st.int_overflow
    &&& literals_fit_from(s, st.pos)
}

proof fn lemma_fit_advance(s: Seq<u8>, st: ParseState)
    requires
        fit_state(s, st),
    ensures
        fit_state(s, advance(s, st)),
{
    lemma_lex_progress(s, st.pos);
    lemma_advance_rank(s, st);
}

proof fn lemma_fit_expect_peek(s: Seq<u8>, st: ParseState, expected: SpecToken)
    requires
        fit_state(s, st),
    ensures
        fit_state(s, spec_expect_peek(s, st, expected).1),
{
    if st.peek == expected {
        lemma_fit_advance(s, st);
    }
}

proof fn lemma_fit_semicolon(s: Seq<u8>, st: ParseState)
    requires
        fit_state(s, st),
    ensures
        fit_state(s, spec_skip_semicolon(s, st)),
{
    if st.peek is Semicolon {
        lemma_fit_advance(s, st);
    }
}

proof fn lemma_fit_let(s: Seq<u8>, st: ParseState)
    requires
        fit_state(s, st),
    ensures
        fit_state(s, spec_parse_let(s, st).1),
    decreases rank(s, st), 7nat,
{
    if st.peek is Ident {
        lemma_fit_advance(s, st);
        let st1 = advance(s, st);
        lemma_fit_expect_peek(s, st1, SpecToken::Assign);
        let (ok, st2) = spec_expect_peek(s, st1, SpecToken::Assign);
        if ok {
            lemma_advance_rank(s, st);
            lemma_advance_rank(s, st1);
            lemma_fit_let_value(s, st2, st.peek->Ident_0);
        }
    }
}

proof fn lemma_fit_let_value(s: Seq<u8>, st: ParseState, name: Seq<char>)
    requires
        fit_state(s, st),
    ensures
        fit_state(s, spec_let_value(s, st, name).1),
    decreases rank(s, st), 6nat,
{
    if !(st.cur is Eof) {
        lemma_fit_advance(s, st);
        lemma_advance_rank(s, st);
        let st1 = advance(s, st);
        lemma_fit_expression(s, st1, Precedence::Lowest);
        lemma_fit_semicolon(s, spec_parse_expression(s, st1, Precedence::Lowest).1);
    }
}

proof fn lemma_fit_return(s: Seq<u8>, st: ParseState)
    requires
        fit_state(s, st),
    ensures
        fit_state(s, spec_parse_return(s, st).1),
    decreases rank(s, st), 7nat,
{
    if !(st.cur is Eof) {
        lemma_fit_advance(s, st);
        lemma_advance_rank(s, st);
        let st1 = advance(s, st);
        lemma_fit_expression(s, st1, Precedence::Lowest);
        lemma_fit_semicolon(s, spec_parse_expression(s, st1, Precedence::Lowest).1);
    }
}

proof fn lemma_fit_statement(s: Seq<u8>, st: ParseState)
    requires
        fit_state(s, st),
    ensures
        fit_state(s, spec_parse_statement(s, st).1),
    decreases rank(s, st), 8nat,
{
    if st.cur is Let {
        lemma_fit_let(s, st);
    } else if st.cur is Return {
        lemma_fit_return(s, st);
    } else {
        lemma_fit_expression_statement(s, st);
    }
}

proof fn lemma_fit_expression_statement(s: Seq<u8>, st: ParseState)
    requires
        fit_state(s, st),
    ensures
        fit_state(s, spec_parse_expression_statement(s, st).1),
    decreases rank(s, st), 6nat,
{
    lemma_fit_expression(s, st, Precedence::Lowest);
    let (e, st1) = spec_parse_expression(s, st, Precedence::Lowest);
    if e is Some && st1.peek is Semicolon {
        lemma_fit_advance(s, st1);
    }
}

proof fn lemma_fit_expression(s: Seq<u8>, st: ParseState, prec: Precedence)
    requires
        fit_state(s, st),
    ensures
        fit_state(s, spec_parse_expression(s, st, prec).1),
    decreases rank(s, st), 5nat,
{
    match st.cur {
        SpecToken::Bang => lemma_fit_prefix(s, st, "!"@),
        SpecToken::Minus => lemma_fit_prefix(s, st, "-"@),
        SpecToken::If => lemma_fit_if(s, st),
        SpecToken::Function => lemma_fit_function(s, st),
        _ => {},
    }
    let (left, st1) = match st.cur {
        SpecToken::Ident(x) => (Some(SpecExpression::Identifier(x)), st),
        SpecToken::Int(n) => (Some(SpecExpression::IntegerLiteral(n)), st),
        SpecToken::StringLiteral(x) => (Some(SpecExpression::StringLiteral(x)), st),
        SpecToken::Bang => spec_parse_prefix(s, st, "!"@),
        SpecToken::Minus => spec_parse_prefix(s, st, "-"@),
        SpecToken::If => spec_parse_if(s, st),
        SpecToken::Function => spec_parse_function(s, st),
        SpecToken::True => (Some(SpecExpression::BooleanLiteral(true)), st),
        SpecToken::False => (Some(SpecExpression::BooleanLiteral(false)), st),
        _ => (None, st),
    };
    if left is Some && rank(s, st1) <= rank(s, st) {
        lemma_fit_infix_loop(s, st1, prec, left.unwrap());
    }
}

proof fn lemma_fit_prefix(s: Seq<u8>, st: ParseState, op: Seq<char>)
    requires
        fit_state(s, st),
    ensures
        fit_state(s, spec_parse_prefix(s, st, op).1),
    decreases rank(s, st), 4nat,
{
    lemma_fit_advance(s, st);
    let st0 = advance(s, st);
    if rank(s, st0) < rank(s, st) {
        lemma_fit_expression(s, st0, Precedence::Prefix);
    }
}

proof fn lemma_fit_infix_loop(s: Seq<u8>, st: ParseState, prec: Precedence, left: SpecExpression)
    requires
        fit_state(s, st),
    ensures
        fit_state(s, spec_infix_loop(s, st, prec, left).1),
    decreases rank(s, st), 3nat,
{
    if !(st.peek is Semicolon) && prec.level() < precedence_of(st.peek).level() {
        lemma_fit_advance(s, st);
        let st1 = advance(s, st);
        if rank(s, st1) < rank(s, st) {
            if st1.cur is LParen {
                lemma_fit_call(s, st1, left);
            } else {
                lemma_fit_infix(s, st1, left);
            }
            let (r, st2) = if st1.cur is LParen {
                spec_parse_call(s, st1, left)
            } else {
                spec_parse_infix(s, st1, left)
            };
            if r is Some && rank(s, st2) < rank(s, st) {
                lemma_fit_infix_loop(s, st2, prec, r.unwrap());
            }
        }
    }
}

proof fn lemma_fit_infix(s: Seq<u8>, st: ParseState, left: SpecExpression)
    requires
        fit_state(s, st),
    ensures
        fit_state(s, spec_parse_infix(s, st, left).1),
    decreases rank(s, st), 2nat,
{
    if infix_operator(st.cur) is Some {
        lemma_fit_advance(s, st);
        let st1 = advance(s, st);
        if rank(s, st1) < rank(s, st) {
            lemma_fit_expression(s, st1, precedence_of(st.cur));
        }
    }
}

proof fn lemma_fit_call(s: Seq<u8>, st: ParseState, function: SpecExpression)
    requires
        fit_state(s, st),
    ensures
        fit_state(s, spec_parse_call(s, st, function).1),
    decreases rank(s, st), 2nat,
{
    if st.peek is RParen {
        lemma_fit_expect_peek(s, st, SpecToken::RParen);
    } else {
        lemma_fit_advance(s, st);
        let st1 = advance(s, st);
        if rank(s, st1) < rank(s, st) {
            lemma_fit_expression(s, st1, Precedence::Lowest);
            let (a0, sta) = spec_parse_expression(s, st1, Precedence::Lowest);
            if a0 is Some && rank(s, sta) < rank(s, st) {
                lemma_fit_call_args(s, sta, function, seq![a0.unwrap()]);
            }
        }
    }
}

proof fn lemma_fit_call_args(
    s: Seq<u8>,
    st: ParseState,
    function: SpecExpression,
    acc: Seq<SpecExpression>,
)
    requires
        fit_state(s, st),
    ensures
        fit_state(s, spec_call_args(s, st, function, acc).1),
    decreases rank(s, st), 1nat,
{
    if st.peek is Comma {
        lemma_fit_advance(s, st);
        lemma_fit_advance(s, advance(s, st));
        let stb = advance(s, advance(s, st));
        if rank(s, stb) < rank(s, st) {
            lemma_fit_expression(s, stb, Precedence::Lowest);
            let (a, stc) = spec_parse_expression(s, stb, Precedence::Lowest);
            if a is Some && rank(s, stc) < rank(s, st) {
                lemma_fit_call_args(s, stc, function, acc.push(a.unwrap()));
            }
        }
    } else {
        lemma_fit_expect_peek(s, st, SpecToken::RParen);
    }
}

proof fn lemma_fit_block(s: Seq<u8>, st: ParseState)
    requires
        fit_state(s, st),
    ensures
        fit_state(s, spec_parse_block(s, st).1),
    decreases rank(s, st), 9nat,
{
    if !(st.cur is RBrace || st.cur is Eof) {
        lemma_fit_statement(s, st);
        let st1 = spec_parse_statement(s, st).1;
        lemma_fit_advance(s, st1);
        let st2 = advance(s, st1);
        if rank(s, st2) < rank(s, st) {
            lemma_fit_block(s, st2);
        }
    }
}

proof fn lemma_fit_if(s: Seq<u8>, st: ParseState)
    requires
        fit_state(s, st),
    ensures
        fit_state(s, spec_parse_if(s, st).1),
    decreases rank(s, st), 4nat,
{
    lemma_fit_expect_peek(s, st, SpecToken::LParen);
    let (ok1, st1) = spec_expect_peek(s, st, SpecToken::LParen);
    if ok1 {
        lemma_fit_advance(s, st1);
        lemma_fit_if_condition(s, advance(s, st1), st);
    }
}

proof fn lemma_fit_if_condition(s: Seq<u8>, st2: ParseState, st0: ParseState)
    requires
        fit_state(s, st2),
    ensures
        fit_state(s, spec_if_condition(s, st2, st0).1),
    decreases rank(s, st0), 3nat,
{
    if rank(s, st2) < rank(s, st0) {
        lemma_fit_expression(s, st2, Precedence::Lowest);
        let (c, st3) = spec_parse_expression(s, st2, Precedence::Lowest);
        if c is Some {
            lemma_fit_if_braces(s, st3, st0, c.unwrap());
        }
    }
}

proof fn lemma_fit_if_braces(s: Seq<u8>, st3: ParseState, st0: ParseState, c: SpecExpression)
    requires
        fit_state(s, st3),
    ensures
        fit_state(s, spec_if_braces(s, st3, st0, c).1),
    decreases rank(s, st0), 2nat,
{
    lemma_fit_expect_peek(s, st3, SpecToken::RParen);
    let (ok2, st4) = spec_expect_peek(s, st3, SpecToken::RParen);
    if ok2 {
        lemma_fit_expect_peek(s, st4, SpecToken::LBrace);
        let (ok3, st5) = spec_expect_peek(s, st4, SpecToken::LBrace);
        if ok3 {
            lemma_fit_advance(s, st5);
            lemma_fit_if_consequence(s, advance(s, st5), st0, c);
        }
    }
}

proof fn lemma_fit_if_consequence(s: Seq<u8>, st6: ParseState, st0: ParseState, c: SpecExpression)
    requires
        fit_state(s, st6),
    ensures
        fit_state(s, spec_if_consequence(s, st6, st0, c).1),
    decreases rank(s, st0), 1nat,
{
    if rank(s, st6) < rank(s, st0) {
        lemma_fit_block(s, st6);
        let (cons, st7) = spec_parse_block(s, st6);
        lemma_fit_else(s, st7, st0, c, cons);
    }
}

proof fn lemma_fit_else(
    s: Seq<u8>,
    st7: ParseState,
    st0: ParseState,
    c: SpecExpression,
    cons: Seq<SpecStatement>,
)
    requires
        fit_state(s, st7),
    ensures
        fit_state(s, spec_parse_else(s, st7, st0, c, cons).1),
    decreases rank(s, st0), 0nat,
{
    if st7.peek is Else {
        lemma_fit_advance(s, st7);
        let st8 = advance(s, st7);
        lemma_fit_expect_peek(s, st8, SpecToken::LBrace);
        let (ok4, st9) = spec_expect_peek(s, st8, SpecToken::LBrace);
        if ok4 {
            lemma_fit_advance(s, st9);
            let st10 = advance(s, st9);
            if rank(s, st10) < rank(s, st0) {
                lemma_fit_block(s, st10);
            }
        }
    }
}

proof fn lemma_fit_params(s: Seq<u8>, st: ParseState, acc: Seq<Seq<char>>)
    requires
        fit_state(s, st),
    ensures
        fit_state(s, spec_parse_params(s, st, acc).1),
    decreases rank(s, st),
{
    if st.peek is Comma {
        lemma_fit_advance(s, st);
        lemma_fit_advance(s, advance(s, st));
        let stb = advance(s, advance(s, st));
        if rank(s, stb) < rank(s, st) {
            lemma_fit_params(s, stb, push_ident(stb.cur, acc));
        }
    }
}

proof fn lemma_fit_function(s: Seq<u8>, st: ParseState)
    requires
        fit_state(s, st),
    ensures
        fit_state(s, spec_parse_function(s, st).1),
    decreases rank(s, st), 4nat,
{
    lemma_fit_expect_peek(s, st, SpecToken::LParen);
    let (ok1, st1) = spec_expect_peek(s, st, SpecToken::LParen);
    if ok1 {
        if !(st1.peek is RParen) {
            lemma_fit_advance(s, st1);
            let sta = advance(s, st1);
            lemma_fit_params(s, sta, push_ident(sta.cur, Seq::empty()));
        }
        let (params, st2) = if !(st1.peek is RParen) {
            let sta = advance(s, st1);
            spec_parse_params(s, sta, push_ident(sta.cur, Seq::empty()))
        } else {
            (Seq::empty(), st1)
        };
        lemma_fit_function_body(s, st2, st, params);
    }
}

proof fn lemma_fit_function_body(
    s: Seq<u8>,
    st2: ParseState,
    st0: ParseState,
    params: Seq<Seq<char>>,
)
    requires
        fit_state(s, st2),
    ensures
        fit_state(s, spec_function_body(s, st2, st0, params).1),
    decreases rank(s, st0), 3nat,
{
    lemma_fit_expect_peek(s, st2, SpecToken::RParen);
    let (ok2, st3) = spec_expect_peek(s, st2, SpecToken::RParen);
    if ok2 {
        lemma_fit_expect_peek(s, st3, SpecToken::LBrace);
        let (ok3, st4) = spec_expect_peek(s, st3, SpecToken::LBrace);
        if ok3 {
            lemma_fit_advance(s, st4);
            let st5 = advance(s, st4);
            if rank(s, st5) < rank(s, st0) {
                lemma_fit_block(s, st5);
            }
        }
    }
}

proof fn lemma_fit_program(s: Seq<u8>, st: ParseState)
    requires
        fit_state(s, st),
    ensures
        fit_state(s, spec_parse_program(s, st).1),
    decreases rank(s, st),
{
    if !(st.cur is Eof) {
        lemma_fit_statement(s, st);
        let st1 = spec_parse_statement(s, st).1;
        lemma_fit_advance(s, st1);
        let st2 = advance(s, st1);
        if rank(s, st2) < rank(s, st) {
            lemma_fit_program(s, st2);
        }
    }
}

/// Where every integer literal from position `p` on fits in `i64`, a parser
/// created over a lexer at `p` reads its first two tokens, and then the whole
/// program, without a failed conversion.
pub proof fn lemma_fitting_literals_parse(s: Seq<u8>, p: int)
    requires
        0 <= p <= s.len(),
        literals_fit_from(s, p),
    ensures
        !initial_state(s, p).int_overflow,
        !spec_parse_program(s, initial_state(s, p)).1.int_overflow,
{
    lemma_lex_progress(s, p);
    let p1 = lex_token(s, p).1;
    lemma_lex_progress(s, p1);
    let st = initial_state(s, p);
    assert(literals_fit_from(s, p1));
    assert(token_fits(lex_token(s, p1).0));
    assert(literals_fit_from(s, st.pos));
    assert(fit_state(s, st));
    lemma_fit_program(s, st);
}

} // verus!
