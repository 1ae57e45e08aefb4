# rust_interpreter

An interpreter for the Monkey language ("Writing An Interpreter In Go"),
written in Verus. Each stage is described by spec functions and the
executable code is proved to follow them.

- `src/token.rs` – tokens, keyword lookup, token equality and `Debug` text.
- `src/lexer.rs` – the byte-level lexer; `lex_token` states which token
  starts at a position and where it ends.
- `src/ast.rs` – the syntax tree and its mathematical view.
- `src/parser.rs` – the Pratt parser; `spec_parse_*` functions state its
  result and the messages it collects, over a `ParseState`.
- `src/literals.rs` – where every integer literal fits in `i64`, parsing
  never meets a literal that the lexer cannot convert.
- `src/object.rs` – values (integers, strings, booleans, functions that
  remember their scope, the built-ins `len` and `puts`) and how they are
  printed.
- `src/environment.rs` – the scopes that hold the bindings made by `let` and
  by calls, and the lines printed by `puts`.
- `src/evaluator.rs` – the evaluator; `spec_eval_*` functions give the value
  and the new environment, or `None` where `i64` arithmetic would panic or
  calls nest too deep; `try_eval_program` reports such a failure.
- `src/repl.rs` – one step of the read-eval-print loop: `quit`/`exit`,
  parse errors, or the printed lines and the value.
- `src/text.rs` – decimal notation and the quoted form of strings.
- `app/main.rs` – reads lines, hands each to `repl_step` and prints what it
  returns.
