use rust_interpreter::environment::Environment;
use rust_interpreter::repl::{repl_step, ReplStep};

fn show(env: &mut Environment, line: &str) -> Vec<String> {
    match repl_step(env, line) {
        ReplStep::Show(lines) => lines,
        ReplStep::Quit => panic!("unexpected quit"),
        ReplStep::Halt(_) => panic!("unexpected halt"),
    }
}

#[test]
fn quit_and_exit_end_the_session() {
    let mut env = Environment::new();
    assert!(matches!(repl_step(&mut env, "quit"), ReplStep::Quit));
    assert!(matches!(repl_step(&mut env, "exit"), ReplStep::Quit));
    assert!(matches!(repl_step(&mut env, "quit;"), ReplStep::Show(_)));
}

#[test]
fn readme_session() {
    let mut env = Environment::new();
    assert_eq!(show(&mut env, "let add = fn(a, b) { a + b }"), Vec::<String>::new());
    assert_eq!(show(&mut env, "add(2, 3)"), vec!["5".to_string()]);
    assert_eq!(show(&mut env, "len(\"hello\")"), vec!["5".to_string()]);
    assert_eq!(show(&mut env, "puts(\"Hello, Monkey!\")"), vec!["Hello, Monkey!".to_string()]);
    assert_eq!(env.scope_count(), 1);
}

#[test]
fn parse_errors_are_shown_and_nothing_runs() {
    let mut env = Environment::new();
    assert_eq!(
        show(&mut env, "let = 5; puts(1)"),
        vec!["parser error: expected next token to be Ident(\"\"), got Assign instead".to_string()]
    );
    assert_eq!(env.take_output(), Vec::<String>::new());
}

#[test]
fn printed_lines_come_before_the_value() {
    let mut env = Environment::new();
    assert_eq!(
        show(&mut env, "puts(1, true); 2"),
        vec!["1".to_string(), "true".to_string(), "2".to_string()]
    );
    assert_eq!(show(&mut env, "if (false) { 1 }"), Vec::<String>::new());
}

#[test]
fn failing_arithmetic_halts() {
    let mut env = Environment::new();
    assert!(matches!(repl_step(&mut env, "1 / 0"), ReplStep::Halt(_)));
}
