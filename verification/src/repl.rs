//! One step of the read-eval-print loop: what a line of input does and which
//! lines it prints. Reading the line and printing are left to the caller.

use vstd::prelude::*;
use vstd::utf8::encode_utf8;
use crate::environment::{lines_view, Environment, SpecEnv};
use crate::evaluator::{spec_eval_program, try_eval_program};
use crate::lexer::{literals_fit_from, Lexer};
use crate::literals::lemma_fitting_literals_parse;
use crate::object::{display, Object, SpecObject};
use crate::parser::{initial_state, spec_parse_program, Parser};
use crate::ast::strings_view;
use crate::token::str_eq;

verus! {

/// What a line of input leads to.
pub enum ReplStep {
    /// The line asks to end the session.
    Quit,
    /// The lines to print.
    Show(Vec<String>),
    /// Evaluation failed where Rust's arithmetic panics (or calls nest too
    /// deep); the lines that `puts` printed before are handed out.
    Halt(Vec<String>),
}

/// Whether a line asks to end the session.
pub open spec fn is_quit(line: Seq<char>) -> bool {
    line == "quit"@ || line == "exit"@
}

/// The printed form of parse errors: one line each.
pub open spec fn error_lines(errors: Seq<Seq<char>>) -> Seq<Seq<char>> {
    Seq::new(errors.len(), |i: int| "parser error: "@ + errors[i])
}

/// The lines printed after evaluating to `v`: what `puts` printed, then the
/// value, unless it is `null`.
pub open spec fn result_lines(v: SpecObject, output: Seq<Seq<char>>) -> Seq<Seq<char>> {
    if v is Null {
        output
    } else {
        output.push(display(v))
    }
}

/// After an evaluation, every value other than `null` is shown, after the
/// lines that `puts` printed; `null` alone adds no line. So `false`, `0` and
/// the empty string are shown, as `false`, `0` and an empty line.
pub proof fn lemma_shown_lines(v: SpecObject, output: Seq<Seq<char>>)
    ensures
        result_lines(v, output).subrange(0, output.len() as int) == output,
        v is Null ==> result_lines(v, output) == output,
        !(v is Null) ==> result_lines(v, output) == output.push(display(v)),
        result_lines(SpecObject::Boolean(false), output) == output.push("false"@),
        result_lines(SpecObject::Integer(0), output) == output.push("0"@),
{
    assert(result_lines(v, output).subrange(0, output.len() as int) =~= output);
    assert(crate::text::nat_digits(0) == seq!['0']);
    reveal_strlit("0");
    assert("0"@ =~= seq!['0']);
}

/// Handles one line of input. `quit` and `exit` end the session. Otherwise
/// the line is parsed; parse errors are shown and nothing is evaluated;
/// else the program is evaluated in `env` and what it printed and its value
/// are shown.
pub fn repl_step(env: &mut Environment, line: &str) -> (r: ReplStep)
    requires
        literals_fit_from(encode_utf8(line@), 0),
    ensures
        is_quit(line@) ==> r is Quit && final(env)@ == old(env)@,
        !is_quit(line@) ==> ({
            let s = encode_utf8(line@);
            let (program, st) = spec_parse_program(s, initial_state(s, 0));
            if st.errors.len() > 0 {
                &&& r is Show
                &&& lines_view(r->Show_0@) == error_lines(st.errors)
                &&& final(env)@ == old(env)@
            } else {
                match spec_eval_program(program, old(env)@) {
                    Some((v, e)) => {
                        &&& r is Show
                        &&& lines_view(r->Show_0@) == result_lines(v, e.output)
                        &&& final(env)@ == SpecEnv { scopes: e.scopes, output: Seq::empty() }
                    },
                    None => r is Halt,
                }
            }
        }),
{
    proof {
        reveal_strlit("quit");
        reveal_strlit("exit");
    }
    if str_eq(line, "quit") || str_eq(line, "exit") {
        return ReplStep::Quit;
    }
    let input = line.to_string();
    let lexer = Lexer::new(input);
    proof {
        lexer.lemma_wf();
        lemma_fitting_literals_parse(lexer.bytes(), 0);
    }
    let mut parser = Parser::new(lexer);
    let program = parser.parse_program();
    let errors = parser.errors();
    if errors.len() > 0 {
        let ghost ev = strings_view(errors@);
        let mut lines: Vec<String> = Vec::new();
        let mut i: usize = 0;
        while i < errors.len()
            invariant
                i <= errors@.len(),
                ev == strings_view(errors@),
                lines_view(lines@) =~= error_lines(ev.subrange(0, i as int)),
            decreases errors@.len() - i,
        {
            let mut msg = "parser error: ".to_string();
            msg.append(errors[i].as_str());
            let ghost before = lines@;
            lines.push(msg);
            proof {
                reveal_strlit("parser error: ");
                assert(lines_view(lines@) =~= lines_view(before).push("parser error: "@ + ev[i as int]));
                assert(error_lines(ev.subrange(0, i + 1)) =~= error_lines(ev.subrange(0, i as int)).push(
                    "parser error: "@ + ev[i as int],
                ));
            }
            i = i + 1;
        }
        proof {
            assert(ev.subrange(0, ev.len() as int) =~= ev);
        }
        return ReplStep::Show(lines);
    }
    match try_eval_program(&program, env) {
        None => ReplStep::Halt(env.take_output()),
        Some(v) => {
            let mut lines = env.take_output();
            match v {
                Object::Null => {},
                other => {
                    let ghost before = lines@;
                    lines.push(other.to_string());
                    proof {
                        assert(lines_view(lines@) =~= lines_view(before).push(display(other@)));
                    }
                },
            }
            ReplStep::Show(lines)
        },
    }
}

} // verus!
