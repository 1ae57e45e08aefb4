use rust_interpreter::lexer::Lexer;
use rust_interpreter::token::{lookup_ident, token_debug_string, tokens_equal, Token};

fn lex_all(input: &str, n: usize) -> Vec<Token> {
    let mut lexer = Lexer::new(input.to_string());
    (0..n).map(|_| lexer.next_token()).collect()
}

#[test]
fn eof_repeats_at_end_of_input() {
    let toks = lex_all("x", 5);
    assert_eq!(
        toks,
        vec![Token::Ident("x".to_string()), Token::Eof, Token::Eof, Token::Eof, Token::Eof]
    );
}

#[test]
fn empty_input_gives_eof() {
    assert_eq!(lex_all("", 3), vec![Token::Eof, Token::Eof, Token::Eof]);
    assert_eq!(lex_all(" \t\r\n ", 2), vec![Token::Eof, Token::Eof]);
}

#[test]
fn nul_byte_is_eof_and_lexing_goes_on() {
    let toks = lex_all("a\0b", 4);
    assert_eq!(
        toks,
        vec![
            Token::Ident("a".to_string()),
            Token::Eof,
            Token::Ident("b".to_string()),
            Token::Eof
        ]
    );
}

#[test]
fn illegal_bytes() {
    assert_eq!(lex_all("@#", 3), vec![Token::Illegal, Token::Illegal, Token::Eof]);
    // each byte of a character outside ASCII is illegal on its own
    assert_eq!(lex_all("é", 3), vec![Token::Illegal, Token::Illegal, Token::Eof]);
}

#[test]
fn identifiers_stop_at_non_letters() {
    let toks = lex_all("foo_bar9 x1", 5);
    assert_eq!(
        toks,
        vec![
            Token::Ident("foo_bar".to_string()),
            Token::Int(9),
            Token::Ident("x".to_string()),
            Token::Int(1),
            Token::Eof
        ]
    );
}

#[test]
fn numbers_and_leading_zeros() {
    let toks = lex_all("007 9223372036854775807", 3);
    assert_eq!(toks, vec![Token::Int(7), Token::Int(i64::MAX), Token::Eof]);
}

#[test]
fn string_literals_keep_their_characters() {
    let toks = lex_all("\"héllo wörld\" \"\"", 3);
    assert_eq!(
        toks,
        vec![
            Token::StringLiteral("héllo wörld".to_string()),
            Token::StringLiteral(String::new()),
            Token::Eof
        ]
    );
}

#[test]
fn unterminated_string_runs_to_end() {
    let toks = lex_all("\"abc", 2);
    assert_eq!(toks, vec![Token::StringLiteral("abc".to_string()), Token::Eof]);
}

#[test]
fn two_character_operators() {
    let toks = lex_all("== != = ! =!", 7);
    assert_eq!(
        toks,
        vec![
            Token::Eq,
            Token::NotEq,
            Token::Assign,
            Token::Bang,
            Token::Assign,
            Token::Bang,
            Token::Eof
        ]
    );
}

#[test]
fn keywords_are_looked_up() {
    assert_eq!(lookup_ident("fn"), Token::Function);
    assert_eq!(lookup_ident("let"), Token::Let);
    assert_eq!(lookup_ident("true"), Token::True);
    assert_eq!(lookup_ident("false"), Token::False);
    assert_eq!(lookup_ident("if"), Token::If);
    assert_eq!(lookup_ident("else"), Token::Else);
    assert_eq!(lookup_ident("return"), Token::Return);
    assert_eq!(lookup_ident("lets"), Token::Ident("lets".to_string()));
    assert_eq!(lookup_ident("Fn"), Token::Ident("Fn".to_string()));
}

#[test]
fn token_equality() {
    assert!(tokens_equal(&Token::Ident("a".to_string()), &Token::Ident("a".to_string())));
    assert!(!tokens_equal(&Token::Ident("a".to_string()), &Token::Ident("b".to_string())));
    assert!(!tokens_equal(&Token::Int(1), &Token::Int(2)));
    assert!(tokens_equal(&Token::Int(3), &Token::Int(3)));
    assert!(tokens_equal(&Token::Comma, &Token::Comma));
    assert!(!tokens_equal(&Token::Comma, &Token::Semicolon));
    assert!(!tokens_equal(&Token::Ident("a".to_string()), &Token::StringLiteral("a".to_string())));
}

#[test]
fn token_debug_matches_derived_debug() {
    let toks = vec![
        Token::Illegal,
        Token::Eof,
        Token::Ident("x".to_string()),
        Token::Ident(String::new()),
        Token::Int(-42),
        Token::Int(i64::MIN),
        Token::StringLiteral("a \"q\"\n".to_string()),
        Token::Assign,
        Token::NotEq,
        Token::LBrace,
        Token::Return,
    ];
    for t in toks {
        assert_eq!(token_debug_string(&t), format!("{:?}", t));
    }
    assert_eq!(token_debug_string(&Token::Ident("ab".to_string())), "Ident(\"ab\")");
}

#[test]
fn token_clone_is_equal() {
    let t = Token::StringLiteral("s".to_string());
    assert_eq!(t.clone(), t);
}

#[test]
fn whitespace_before_token_is_ignored() {
    assert_eq!(lex_all(" \t\n let", 2), lex_all("let", 2));
    assert_eq!(lex_all("\r\n  42", 2), vec![Token::Int(42), Token::Eof]);
}

fn fits(input: &str) -> bool {
    Lexer::new(input.to_string()).literals_fit()
}

#[test]
fn literals_fit_checks_every_integer_literal() {
    assert!(fits(""));
    assert!(fits("let x = 5; x + 10"));
    assert!(fits("9223372036854775807"));
    assert!(!fits("9223372036854775808"));
    assert!(!fits("1 + 99999999999999999999 * 2"));
    assert!(fits("\"99999999999999999999\""));
    assert!(!fits("abc99999999999999999999"));
    assert!(!fits("let a = 1;\n  let b = 18446744073709551616;"));
    assert!(fits("00000000000000000000000000009"));
}

#[test]
fn literals_fit_looks_from_the_current_position() {
    let mut lexer = Lexer::new("99999999999999999999 + 1".to_string());
    assert!(!lexer.literals_fit());
    let mut probe = Lexer::new("1 99999999999999999999".to_string());
    assert!(!probe.literals_fit());
    assert_eq!(probe.next_token(), Token::Int(1));
    assert!(!probe.literals_fit());
    lexer = Lexer::new("7; 8".to_string());
    assert_eq!(lexer.next_token(), Token::Int(7));
    assert!(lexer.literals_fit());
}

#[test]
fn non_eof_tokens_take_at_least_one_byte() {
    let input = "let x=1;";
    let mut lexer = Lexer::new(input.to_string());
    let mut non_eof = 0;
    for _ in 0..(input.len() + 3) {
        if lexer.next_token() != Token::Eof {
            non_eof += 1;
        }
    }
    assert_eq!(non_eof, 5);
    assert!(non_eof <= input.len());
}

#[test]
fn eof_is_absorbing_without_nul() {
    let input = "let x = 10;  ";
    let mut lexer = Lexer::new(input.to_string());
    let mut seen_eof = false;
    for i in 0..(input.len() + 4) {
        let t = lexer.next_token();
        if seen_eof || i >= input.len() {
            assert_eq!(t, Token::Eof);
        }
        if t == Token::Eof {
            seen_eof = true;
        }
    }
    assert!(seen_eof);
}
