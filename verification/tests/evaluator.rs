use rust_interpreter::ast::{Expression, Program, Statement};
use rust_interpreter::environment::Environment;
use rust_interpreter::evaluator::{eval_bang, eval_program, try_eval_program};
use rust_interpreter::lexer::Lexer;
use rust_interpreter::object::{BuiltinFunction, Object};
use rust_interpreter::parser::Parser;

fn run_in(input: &str, env: &mut Environment) -> Object {
    let lexer = Lexer::new(input.to_string());
    let mut parser = Parser::new(lexer);
    let program = parser.parse_program();
    assert!(parser.errors().is_empty(), "{:?}", parser.errors());
    eval_program(&program, env)
}

fn run(input: &str) -> Object {
    let mut env = Environment::new();
    run_in(input, &mut env)
}

#[test]
fn integer_arithmetic() {
    assert_eq!(run("5 + 3"), Object::Integer(8));
    assert_eq!(run("5 - 8"), Object::Integer(-3));
    assert_eq!(run("6 * 7"), Object::Integer(42));
    assert_eq!(run("7 / 2"), Object::Integer(3));
    assert_eq!(run("2 + 3 * 4"), Object::Integer(14));
}

#[test]
fn division_rounds_towards_zero() {
    assert_eq!(run("0 - 7 / 2"), Object::Integer(-3));
    assert_eq!(run("-7 / 2"), Object::Integer(-3));
    let negative_seven = Expression::Prefix {
        operator: "-".to_string(),
        right: Box::new(Expression::IntegerLiteral(7)),
    };
    let program = Program {
        statements: vec![Statement::ExpressionStmt(Expression::Infix {
            left: Box::new(negative_seven),
            operator: "/".to_string(),
            right: Box::new(Expression::IntegerLiteral(2)),
        })],
    };
    let mut env = Environment::new();
    assert_eq!(eval_program(&program, &mut env), Object::Integer(-3));
}

#[test]
fn prefix_minus_binds_tighter_than_infix() {
    assert_eq!(run("-1 + 2"), Object::Integer(1));
    assert_eq!(run("-5 + 3"), Object::Integer(-2));
    assert_eq!(run("!true == false"), Object::Boolean(true));
}

#[test]
fn comparisons() {
    assert_eq!(run("1 < 2"), Object::Boolean(true));
    assert_eq!(run("1 > 2"), Object::Boolean(false));
    assert_eq!(run("3 == 3"), Object::Boolean(true));
    assert_eq!(run("3 != 3"), Object::Boolean(false));
    assert_eq!(run("true == false"), Object::Boolean(false));
    assert_eq!(run("true != false"), Object::Boolean(true));
    assert_eq!(run("true + false"), Object::Null);
    assert_eq!(run("1 == true"), Object::Null);
}

#[test]
fn bang_is_negated_truthiness() {
    assert_eq!(run("!true"), Object::Boolean(false));
    assert_eq!(run("!false"), Object::Boolean(true));
    assert_eq!(run("!5"), Object::Boolean(false));
    assert_eq!(run("!!5"), Object::Boolean(true));
    assert_eq!(run("!x"), Object::Boolean(true));
    assert_eq!(run("-true"), Object::Null);
}

#[test]
fn if_else_follows_truthiness() {
    assert_eq!(run("if (1 < 2) { 10 } else { 20 }"), Object::Integer(10));
    assert_eq!(run("if (1 > 2) { 10 } else { 20 }"), Object::Integer(20));
    assert_eq!(run("if (0) { 10 }"), Object::Integer(10));
    assert_eq!(run("if (false) { 10 }"), Object::Null);
    assert_eq!(run("if (nothing) { 10 }"), Object::Null);
}

#[test]
fn return_stops_the_program() {
    assert_eq!(run("1; return 2; 3"), Object::Integer(2));
    assert_eq!(run("if (true) { if (true) { return 9; } 1 } 2"), Object::Integer(9));
}

#[test]
fn let_binds_a_name() {
    let mut env = Environment::new();
    assert_eq!(run_in("let a = 10;", &mut env), Object::Null);
    assert_eq!(run_in("a", &mut env), Object::Integer(10));
    assert_eq!(run_in("a * 2", &mut env), Object::Integer(20));
    assert_eq!(run_in("let a = a + 1; a", &mut env), Object::Integer(11));
    assert_eq!(run_in("b", &mut env), Object::Null);
}

#[test]
fn string_literals_evaluate_to_strings() {
    assert_eq!(run("\"hello\""), Object::String("hello".to_string()));
    assert_eq!(run("\"a\" == \"a\""), Object::Null);
}

#[test]
fn calling_a_non_function_is_null() {
    assert_eq!(run("f(1)"), Object::Null);
    assert_eq!(run("5(1)"), Object::Null);
}

#[test]
fn functions_are_called() {
    let mut env = Environment::new();
    assert_eq!(run_in("let add = fn(a, b) { a + b }", &mut env), Object::Null);
    assert_eq!(run_in("add(2, 3)", &mut env), Object::Integer(5));
    assert_eq!(run("fn(x) { x * 2 }(21)"), Object::Integer(42));
    assert_eq!(run("let f = fn() { return 7; 8 }; f() + 1"), Object::Integer(8));
}

#[test]
fn closures_see_the_scope_they_were_made_in() {
    let program = "let new_adder = fn(x) { fn(y) { x + y } }; let add_two = new_adder(2); add_two(3)";
    assert_eq!(run(program), Object::Integer(5));
    let shadow = "let x = 1; let f = fn(x) { x }; f(9) + x";
    assert_eq!(run(shadow), Object::Integer(10));
}

#[test]
fn recursive_functions() {
    let program = "let fact = fn(n) { if (n < 2) { 1 } else { n * fact(n - 1) } }; fact(10)";
    assert_eq!(run(program), Object::Integer(3628800));
}

#[test]
fn builtin_len() {
    assert_eq!(run("len(\"hello\")"), Object::Integer(5));
    assert_eq!(run("len(\"\")"), Object::Integer(0));
    assert_eq!(run("len(1)"), Object::Null);
    assert_eq!(run("len(\"a\", \"b\")"), Object::Null);
}

#[test]
fn builtin_puts_prints_its_arguments() {
    let mut env = Environment::new();
    assert_eq!(run_in("puts(\"Hello, Monkey!\", 1 + 2, true)", &mut env), Object::Null);
    assert_eq!(
        env.take_output(),
        vec!["Hello, Monkey!".to_string(), "3".to_string(), "true".to_string()]
    );
    assert_eq!(env.take_output(), Vec::<String>::new());
}

#[test]
fn environment_get_after_set() {
    let mut env = Environment::new();
    assert_eq!(env.get(&"x".to_string()), None);
    env.set("x".to_string(), Object::Integer(1));
    env.set("y".to_string(), Object::Boolean(true));
    assert_eq!(env.get(&"x".to_string()), Some(Object::Integer(1)));
    env.set("x".to_string(), Object::String("s".to_string()));
    assert_eq!(env.get(&"x".to_string()), Some(Object::String("s".to_string())));
    assert_eq!(env.get(&"y".to_string()), Some(Object::Boolean(true)));
}

#[test]
fn object_display() {
    assert_eq!(Object::Integer(0).to_string(), "0");
    assert_eq!(Object::Integer(-120).to_string(), "-120");
    assert_eq!(Object::Integer(i64::MIN).to_string(), "-9223372036854775808");
    assert_eq!(Object::Integer(i64::MAX).to_string(), "9223372036854775807");
    assert_eq!(Object::String("hi".to_string()).to_string(), "hi");
    assert_eq!(Object::Boolean(true).to_string(), "true");
    assert_eq!(Object::Boolean(false).to_string(), "false");
    assert_eq!(Object::Null.to_string(), "null");
    assert_eq!(Object::Return(Box::new(Object::Integer(7))).to_string(), "7");
    assert_eq!(Object::Builtin(BuiltinFunction::Len).to_string(), "<builtin function>");
    let f = Object::Function { parameters: vec!["a".to_string(), "b".to_string()], body: vec![], env: 0 };
    assert_eq!(f.to_string(), "fn(a, b) { ... }");
    let g = Object::Function { parameters: vec![], body: vec![], env: 0 };
    assert_eq!(g.to_string(), "fn() { ... }");
}

#[test]
fn object_clone_is_equal() {
    let o = Object::Return(Box::new(Object::String("x".to_string())));
    assert_eq!(o.clone(), o);
}

#[test]
fn let_then_lookup_gives_the_bound_value() {
    let program = Program {
        statements: vec![
            Statement::Let {
                name: "x".to_string(),
                value: Expression::Infix {
                    left: Box::new(Expression::IntegerLiteral(2)),
                    operator: "*".to_string(),
                    right: Box::new(Expression::IntegerLiteral(3)),
                },
            },
            Statement::ExpressionStmt(Expression::Identifier("x".to_string())),
        ],
    };
    let mut env = Environment::new();
    assert_eq!(eval_program(&program, &mut env), Object::Integer(6));
    assert_eq!(env.get(&"x".to_string()), Some(Object::Integer(6)));
}

#[test]
fn comparison_laws_on_values() {
    assert_eq!(run("3 < 8"), run("8 > 3"));
    assert_eq!(run("8 < 3"), run("3 > 8"));
    assert_eq!(run("4 + 9"), run("9 + 4"));
    assert_eq!(run("4 * 9"), run("9 * 4"));
}

fn try_run(input: &str) -> Option<Object> {
    let lexer = Lexer::new(input.to_string());
    let mut parser = Parser::new(lexer);
    let program = parser.parse_program();
    assert!(parser.errors().is_empty(), "{:?}", parser.errors());
    let mut env = Environment::new();
    try_eval_program(&program, &mut env)
}

#[test]
fn failing_arithmetic_is_reported() {
    assert_eq!(try_run("9223372036854775807 + 1"), None);
    assert_eq!(try_run("0 - 9223372036854775807 - 2"), None);
    assert_eq!(try_run("4611686018427387904 * 2"), None);
    assert_eq!(try_run("1 / 0"), None);
    assert_eq!(try_run("if (true) { 5 / 0 }"), None);
    assert_eq!(try_run("if (false) { 5 / 0 } else { 4 / 2 }"), Some(Object::Integer(2)));
    assert_eq!(try_run("0 - 9223372036854775807 - 1"), Some(Object::Integer(i64::MIN)));
    assert_eq!(try_run("9223372036854775807 + 0"), Some(Object::Integer(i64::MAX)));
    assert_eq!(try_run("return 3; 1 / 0"), Some(Object::Integer(3)));
    assert_eq!(try_run("let f = fn(x) { x / 0 }; f(1)"), None);
}

fn try_eval_expression(e: Expression) -> Option<Object> {
    let program = Program { statements: vec![Statement::ExpressionStmt(e)] };
    let mut env = Environment::new();
    try_eval_program(&program, &mut env)
}

#[test]
fn failing_negation_and_division_are_reported() {
    let negate_min = Expression::Prefix {
        operator: "-".to_string(),
        right: Box::new(Expression::IntegerLiteral(i64::MIN)),
    };
    assert_eq!(try_eval_expression(negate_min), None);
    let min_by_minus_one = Expression::Infix {
        left: Box::new(Expression::IntegerLiteral(i64::MIN)),
        operator: "/".to_string(),
        right: Box::new(Expression::IntegerLiteral(-1)),
    };
    assert_eq!(try_eval_expression(min_by_minus_one), None);
    let negate_max = Expression::Prefix {
        operator: "-".to_string(),
        right: Box::new(Expression::IntegerLiteral(i64::MAX)),
    };
    assert_eq!(try_eval_expression(negate_max), Some(Object::Integer(-i64::MAX)));
}

#[test]
fn eval_bang_negates_truthiness() {
    assert_eq!(eval_bang(Object::Integer(5)), Object::Boolean(false));
    assert_eq!(eval_bang(Object::Null), Object::Boolean(true));
    assert_eq!(eval_bang(Object::Boolean(false)), Object::Boolean(true));
    assert_eq!(eval_bang(Object::Boolean(true)), Object::Boolean(false));
    assert_eq!(eval_bang(Object::String(String::new())), Object::Boolean(false));
}

#[test]
fn let_in_a_function_binds_in_its_own_scope() {
    let mut env = Environment::new();
    run_in("let x = 1; let f = fn() { let x = 2; x }", &mut env);
    assert_eq!(run_in("f()", &mut env), Object::Integer(2));
    assert_eq!(run_in("x", &mut env), Object::Integer(1));
    assert_eq!(env.get(&"x".to_string()), Some(Object::Integer(1)));
}

#[test]
fn calls_release_their_scopes() {
    let mut env = Environment::new();
    run_in("let f = fn(x) { let y = x; y }; f(1); f(2)", &mut env);
    assert_eq!(env.scope_count(), 1);
    assert_eq!(run_in("fn(x) { x }(3)", &mut env), Object::Integer(3));
    assert_eq!(env.scope_count(), 1);
    run_in("let add_one = fn(x) { fn(y) { x + y } }(1)", &mut env);
    assert_eq!(env.scope_count(), 2);
    assert_eq!(run_in("add_one(41)", &mut env), Object::Integer(42));
    assert_eq!(env.scope_count(), 2);
}
