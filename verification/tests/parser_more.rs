use rust_interpreter::ast::{Expression, Program, Statement};
use rust_interpreter::lexer::Lexer;
use rust_interpreter::parser::Parser;

fn parse_with_errors(input: &str) -> (Program, Vec<String>) {
    let lexer = Lexer::new(input.to_string());
    let mut parser = Parser::new(lexer);
    let program = parser.parse_program();
    (program, parser.errors().clone())
}

fn num(n: i64) -> Box<Expression> {
    Box::new(Expression::IntegerLiteral(n))
}

fn ident(s: &str) -> Box<Expression> {
    Box::new(Expression::Identifier(s.to_string()))
}

fn infix(l: Box<Expression>, op: &str, r: Box<Expression>) -> Expression {
    Expression::Infix { left: l, operator: op.to_string(), right: r }
}

#[test]
fn product_binds_tighter_than_sum() {
    let (p, errors) = parse_with_errors("1 + 2 * 3");
    assert!(errors.is_empty());
    assert_eq!(
        p.statements,
        vec![Statement::ExpressionStmt(infix(num(1), "+", Box::new(infix(num(2), "*", num(3)))))]
    );
    let (p, _) = parse_with_errors("1 * 2 + 3");
    assert_eq!(
        p.statements,
        vec![Statement::ExpressionStmt(infix(Box::new(infix(num(1), "*", num(2))), "+", num(3)))]
    );
}

#[test]
fn same_precedence_groups_to_the_left() {
    let (p, _) = parse_with_errors("a - b - c");
    assert_eq!(
        p.statements,
        vec![Statement::ExpressionStmt(infix(Box::new(infix(ident("a"), "-", ident("b"))), "-", ident("c")))]
    );
}

#[test]
fn comparison_binds_looser_than_sum() {
    let (p, _) = parse_with_errors("1 + 2 == 3 < 4");
    assert_eq!(
        p.statements,
        vec![Statement::ExpressionStmt(infix(
            Box::new(infix(num(1), "+", num(2))),
            "==",
            Box::new(infix(num(3), "<", num(4)))
        ))]
    );
}

#[test]
fn prefix_operand_binds_tighter_than_infix() {
    let (p, _) = parse_with_errors("-1 + 2");
    assert_eq!(
        p.statements,
        vec![Statement::ExpressionStmt(infix(
            Box::new(Expression::Prefix { operator: "-".to_string(), right: num(1) }),
            "+",
            num(2),
        ))]
    );
}

#[test]
fn if_else_expression() {
    let (p, errors) = parse_with_errors("if (a) { 1 } else { 2; 3 }");
    assert!(errors.is_empty());
    assert_eq!(
        p.statements,
        vec![Statement::ExpressionStmt(Expression::If {
            condition: ident("a"),
            consequence: vec![Statement::ExpressionStmt(Expression::IntegerLiteral(1))],
            alternative: Some(vec![
                Statement::ExpressionStmt(Expression::IntegerLiteral(2)),
                Statement::ExpressionStmt(Expression::IntegerLiteral(3)),
            ]),
        })]
    );
}

#[test]
fn call_without_arguments_and_nested_calls() {
    let (p, errors) = parse_with_errors("f()(1)");
    assert!(errors.is_empty());
    assert_eq!(
        p.statements,
        vec![Statement::ExpressionStmt(Expression::Call {
            function: Box::new(Expression::Call { function: ident("f"), arguments: vec![] }),
            arguments: vec![Expression::IntegerLiteral(1)],
        })]
    );
}

#[test]
fn function_without_parameters() {
    let (p, errors) = parse_with_errors("fn() { return 1; }");
    assert!(errors.is_empty());
    assert_eq!(
        p.statements,
        vec![Statement::ExpressionStmt(Expression::FunctionLiteral {
            parameters: vec![],
            body: vec![Statement::Return(Expression::IntegerLiteral(1))],
        })]
    );
}

#[test]
fn let_and_return_values_are_parsed() {
    let (p, errors) = parse_with_errors("let y = 10 + 2; return x;");
    assert!(errors.is_empty());
    assert_eq!(
        p.statements,
        vec![
            Statement::Let { name: "y".to_string(), value: infix(num(10), "+", num(2)) },
            Statement::Return(*ident("x")),
        ]
    );
    let (q, _) = parse_with_errors("return 10;");
    assert_eq!(q.statements, vec![Statement::Return(Expression::IntegerLiteral(10))]);
}

#[test]
fn let_binds_a_function_literal() {
    let (p, errors) = parse_with_errors("let add = fn(a, b) { a + b }");
    assert!(errors.is_empty());
    assert_eq!(
        p.statements,
        vec![Statement::Let {
            name: "add".to_string(),
            value: Expression::FunctionLiteral {
                parameters: vec!["a".to_string(), "b".to_string()],
                body: vec![Statement::ExpressionStmt(infix(ident("a"), "+", ident("b")))],
            },
        }]
    );
}

#[test]
fn string_literal_statement() {
    let (p, errors) = parse_with_errors("\"hello\";");
    assert!(errors.is_empty());
    assert_eq!(
        p.statements,
        vec![Statement::ExpressionStmt(Expression::StringLiteral("hello".to_string()))]
    );
}

#[test]
fn let_without_name_reports_error() {
    let (p, errors) = parse_with_errors("let = 5;");
    assert_eq!(
        errors,
        vec!["expected next token to be Ident(\"\"), got Assign instead".to_string()]
    );
    assert_eq!(p.statements, vec![Statement::ExpressionStmt(Expression::IntegerLiteral(5))]);
}

#[test]
fn let_without_assign_reports_error() {
    let (_, errors) = parse_with_errors("let x 5;");
    assert_eq!(errors, vec!["expected next token to be Assign, got Int(5) instead".to_string()]);
}

#[test]
fn errors_accumulate_and_parsing_goes_on() {
    let (p, errors) = parse_with_errors("let = 1; let y 2; if (a { 3 }; 4");
    assert_eq!(
        errors,
        vec![
            "expected next token to be Ident(\"\"), got Assign instead".to_string(),
            "expected next token to be Assign, got Int(2) instead".to_string(),
            "expected next token to be RParen, got LBrace instead".to_string(),
        ]
    );
    assert_eq!(
        p.statements.last(),
        Some(&Statement::ExpressionStmt(Expression::IntegerLiteral(4)))
    );
}

#[test]
fn error_message_quotes_string_literals() {
    let (_, errors) = parse_with_errors("let \"s\"");
    assert_eq!(
        errors,
        vec!["expected next token to be Ident(\"\"), got StringLiteral(\"s\") instead".to_string()]
    );
}

#[test]
fn unparsable_tokens_are_skipped() {
    let (p, errors) = parse_with_errors("; ) 7");
    assert!(errors.is_empty());
    assert_eq!(p.statements, vec![Statement::ExpressionStmt(Expression::IntegerLiteral(7))]);
}

#[test]
fn program_clone_is_equal() {
    let (p, _) = parse_with_errors("fn(a) { if (a) { a(1, 2) } else { !a } }");
    assert_eq!(p.clone(), p);
}

#[test]
fn prefix_operand_and_calls() {
    let (p, _) = parse_with_errors("-a * b");
    assert_eq!(
        p.statements,
        vec![Statement::ExpressionStmt(infix(
            Box::new(Expression::Prefix { operator: "-".to_string(), right: ident("a") }),
            "*",
            ident("b"),
        ))]
    );
    let (q, _) = parse_with_errors("-f(x)");
    assert_eq!(
        q.statements,
        vec![Statement::ExpressionStmt(Expression::Prefix {
            operator: "-".to_string(),
            right: Box::new(Expression::Call { function: ident("f"), arguments: vec![*ident("x")] }),
        })]
    );
}
