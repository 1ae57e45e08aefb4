//! The evaluator: walks the syntax tree and computes values, keeping the
//! bindings made by `let` in the scopes of an environment. Function values
//! remember the scope they were made in, and a call evaluates the body in a
//! new scope that binds the parameters and is enclosed by that one. The
//! built-in functions `len` and `puts` are seen wherever these names are not
//! bound.
//!
//! Its behaviour is stated by spec functions from a syntax tree, the
//! environment, the current scope and a bound on the depth of nested calls to
//! a value and the new environment. They give `None` where Rust's integer
//! arithmetic would panic (overflow, or division by zero) or calls nest
//! deeper than the bound (where Rust's stack would overflow first):
//! `eval_program` requires that this does not happen, and `try_eval_program`
//! reports it.

use vstd::prelude::*;
use vstd::string::StrSliceExecFns;
use crate::ast::{
    exprs_view, lemma_exprs_view_index, lemma_stmts_view_index, stmts_view, Expression, Program,
    SpecExpression, SpecStatement, Statement,
};
use crate::environment::{bind, lookup, new_scope, Environment, SpecEnv, SpecScope};
use crate::object::{display, objects_view, BuiltinFunction, Object, SpecObject};
use crate::token::str_eq;

verus! {

/// Whether a value counts as true in a condition: everything but `null` and
/// `false`.
pub open spec fn spec_is_truthy(o: SpecObject) -> bool {
    match o {
        SpecObject::Null => false,
        SpecObject::Boolean(b) => b,
        _ => true,
    }
}

/// `!v`
pub open spec fn spec_bang(o: SpecObject) -> SpecObject {
    match o {
        SpecObject::Boolean(true) => SpecObject::Boolean(false),
        SpecObject::Boolean(false) => SpecObject::Boolean(true),
        SpecObject::Null => SpecObject::Boolean(true),
        _ => SpecObject::Boolean(false),
    }
}

/// Whether an integer fits in `i64`.
pub open spec fn in_i64(x: int) -> bool {
    i64::MIN <= x <= i64::MAX
}

/// Integer division rounding towards zero, as Rust's `/` does.
pub open spec fn trunc_div(x: int, d: int) -> int {
    if x == 0 {
        0
    } else if x > 0 && d > 0 {
        x / d
    } else if x < 0 && d < 0 {
        (x * -1) / (d * -1)
    } else if x < 0 {
        ((x * -1) / d) * -1
    } else {
        (x / (d * -1)) * -1
    }
}

/// An integer result, or `None` where it does not fit in `i64`.
pub open spec fn checked_integer(x: int) -> Option<SpecObject> {
    if in_i64(x) {
        Some(SpecObject::Integer(x))
    } else {
        None
    }
}

/// An infix operator applied to two integers; `None` where Rust's `i64`
/// arithmetic panics.
pub open spec fn spec_integer_infix(op: Seq<char>, l: int, r: int) -> Option<SpecObject> {
    if op == "+"@ {
        checked_integer(l + r)
    } else if op == "-"@ {
        checked_integer(l - r)
    } else if op == "*"@ {
        checked_integer(l * r)
    } else if op == "/"@ {
        if r == 0 {
            None
        } else {
            checked_integer(trunc_div(l, r))
        }
    } else if op == "<"@ {
        Some(SpecObject::Boolean(l < r))
    } else if op == ">"@ {
        Some(SpecObject::Boolean(l > r))
    } else if op == "=="@ {
        Some(SpecObject::Boolean(l == r))
    } else if op == "!="@ {
        Some(SpecObject::Boolean(l != r))
    } else {
        Some(SpecObject::Null)
    }
}

/// An infix operator applied to two values: integers and booleans are
/// compared, integers computed with; anything else gives `null`.
pub open spec fn spec_infix(op: Seq<char>, l: SpecObject, r: SpecObject) -> Option<SpecObject> {
    match (l, r) {
        (SpecObject::Integer(a), SpecObject::Integer(b)) => spec_integer_infix(op, a, b),
        (SpecObject::Boolean(a), SpecObject::Boolean(b)) => {
            if op == "=="@ {
                Some(SpecObject::Boolean(a == b))
            } else if op == "!="@ {
                Some(SpecObject::Boolean(a != b))
            } else {
                Some(SpecObject::Null)
            }
        },
        _ => Some(SpecObject::Null),
    }
}

/// A prefix operator applied to a value; `None` where negation overflows.
pub open spec fn spec_prefix(op: Seq<char>, r: SpecObject) -> Option<SpecObject> {
    if op == "!"@ {
        Some(spec_bang(r))
    } else if op == "-"@ {
        spec_minus(r)
    } else {
        Some(SpecObject::Null)
    }
}

/// `-v`: negation of integers, `null` for other values; `None` where the
/// negation does not fit in `i64`.
pub open spec fn spec_minus(r: SpecObject) -> Option<SpecObject> {
    match r {
        SpecObject::Integer(n) => checked_integer(-n),
        _ => Some(SpecObject::Null),
    }
}

/// The value of a name seen from scope `cur`: its binding, else the built-in
/// function of that name, else `null`.
pub open spec fn identifier_value(env: SpecEnv, cur: int, name: Seq<char>) -> SpecObject {
    match lookup(env.scopes, cur, name) {
        Some(v) => v,
        None => if name == "len"@ {
            SpecObject::Builtin(BuiltinFunction::Len)
        } else if name == "puts"@ {
            SpecObject::Builtin(BuiltinFunction::Puts)
        } else {
            SpecObject::Null
        },
    }
}

/// The value returned by a function body: a `return` value is unwrapped.
pub open spec fn unwrap_return(v: SpecObject) -> SpecObject {
    match v {
        SpecObject::Return(r) => *r,
        _ => v,
    }
}

/// A built-in function applied to `args`: `len` of one string is its number
/// of characters (`null` for other arguments); `puts` prints each argument
/// on a line of its own and gives `null`.
pub open spec fn spec_builtin(b: BuiltinFunction, args: Seq<SpecObject>, env: SpecEnv) -> Option<
    (SpecObject, SpecEnv),
> {
    match b {
        BuiltinFunction::Len => {
            if args.len() == 1 && args[0] is String {
                match checked_integer(args[0]->String_0.len() as int) {
                    Some(v) => Some((v, env)),
                    None => None,
                }
            } else {
                Some((SpecObject::Null, env))
            }
        },
        BuiltinFunction::Puts => Some(
            (
                SpecObject::Null,
                SpecEnv {
                    scopes: env.scopes,
                    output: env.output + Seq::new(args.len(), |i: int| display(args[i])),
                },
            ),
        ),
    }
}

/// The value of an expression, evaluated in scope `cur` with calls nested at
/// most `fuel` deep, and the environment after it.
pub open spec fn spec_eval_expression(e: SpecExpression, env: SpecEnv, cur: int, fuel: nat) -> Option<
    (SpecObject, SpecEnv),
>
    decreases fuel, e, 2int,
{
    match e {
        SpecExpression::IntegerLiteral(n) => Some((SpecObject::Integer(n), env)),
        SpecExpression::StringLiteral(x) => Some((SpecObject::String(x), env)),
        SpecExpression::Identifier(name) => Some((identifier_value(env, cur, name), env)),
        SpecExpression::BooleanLiteral(b) => Some((SpecObject::Boolean(b), env)),
        SpecExpression::Prefix { operator, right } => match spec_eval_expression(
            *right,
            env,
            cur,
            fuel,
        ) {
            None => None,
            Some((r, env1)) => match spec_prefix(operator, r) {
                None => None,
                Some(v) => Some((v, env1)),
            },
        },
        SpecExpression::Infix { left, operator, right } => match spec_eval_expression(
            *left,
            env,
            cur,
            fuel,
        ) {
            None => None,
            Some((l, env1)) => match spec_eval_expression(*right, env1, cur, fuel) {
                None => None,
                Some((r, env2)) => match spec_infix(operator, l, r) {
                    None => None,
                    Some(v) => Some((v, env2)),
                },
            },
        },
        SpecExpression::If { condition, consequence, alternative } => match spec_eval_expression(
            *condition,
            env,
            cur,
            fuel,
        ) {
            None => None,
            Some((c, env1)) => {
                if spec_is_truthy(c) {
                    spec_eval_block(consequence, 0, env1, cur, fuel, SpecObject::Null)
                } else {
                    match alternative {
                        Some(alt) => spec_eval_block(alt, 0, env1, cur, fuel, SpecObject::Null),
                        None => Some((SpecObject::Null, env1)),
                    }
                }
            },
        },
        SpecExpression::FunctionLiteral { parameters, body } => Some(
            (SpecObject::Function { parameters, body, env: cur }, env),
        ),
        SpecExpression::Call { function, arguments } => match spec_eval_expression(
            *function,
            env,
            cur,
            fuel,
        ) {
            None => None,
            Some((f, env1)) => match spec_eval_args(arguments, 0, env1, cur, fuel, Seq::empty()) {
                None => None,
                Some((args, env2)) => spec_apply(e, f, args, env2, fuel),
            },
        },
    }
}

/// The values of the arguments from index `i` on, added to `acc`, and the
/// environment after them.
pub open spec fn spec_eval_args(
    args: Seq<SpecExpression>,
    i: int,
    env: SpecEnv,
    cur: int,
    fuel: nat,
    acc: Seq<SpecObject>,
) -> Option<(Seq<SpecObject>, SpecEnv)>
    decreases fuel, args, args.len() - i,
{
    if i < 0 || i >= args.len() {
        Some((acc, env))
    } else {
        match spec_eval_expression(args[i], env, cur, fuel) {
            None => None,
            Some((v, env1)) => spec_eval_args(args, i + 1, env1, cur, fuel, acc.push(v)),
        }
    }
}

/// Whether `v` is a function made in a scope at index `n` or above.
pub open spec fn made_at_or_above(v: SpecObject, n: int) -> bool {
    v matches SpecObject::Function { env: k, .. } && k >= n
}

/// The environment after a call that began with `n` scopes and returned
/// `v`: the scopes the call added are dropped, unless `v` is a function made
/// in one of them (a closure, which keeps them).
pub open spec fn release_scopes(env: SpecEnv, n: nat, v: SpecObject) -> SpecEnv {
    if made_at_or_above(v, n as int) || env.scopes.len() < n {
        env
    } else {
        SpecEnv { scopes: env.scopes.subrange(0, n as int), output: env.output }
    }
}

/// The value `f` applied to `args` in the call `call`: a function's body is
/// evaluated in a new scope (with one level of calls less), a `return` value
/// is unwrapped, and the scopes the call added are released; a built-in
/// function is applied; anything else gives `null`.
pub open spec fn spec_apply(
    call: SpecExpression,
    f: SpecObject,
    args: Seq<SpecObject>,
    env: SpecEnv,
    fuel: nat,
) -> Option<(SpecObject, SpecEnv)>
    decreases fuel, call, 1int,
{
    match f {
        SpecObject::Function { parameters, body, env: scope } => {
            if fuel == 0 || env.scopes.len() >= usize::MAX {
                None
            } else {
                let env1 = SpecEnv {
                    scopes: new_scope(env.scopes, scope, parameters, args),
                    output: env.output,
                };
                match spec_eval_block(
                    body,
                    0,
                    env1,
                    env.scopes.len() as int,
                    (fuel - 1) as nat,
                    SpecObject::Null,
                ) {
                    None => None,
                    Some((v, env2)) => Some(
                        (unwrap_return(v), release_scopes(env2, env.scopes.len(), unwrap_return(v))),
                    ),
                }
            }
        },
        SpecObject::Builtin(b) => spec_builtin(b, args, env),
        _ => Some((SpecObject::Null, env)),
    }
}

/// The value of a statement and the environment after it: `let` binds in
/// scope `cur` and gives `null`; `return` wraps its value.
pub open spec fn spec_eval_statement(s: SpecStatement, env: SpecEnv, cur: int, fuel: nat) -> Option<
    (SpecObject, SpecEnv),
>
    decreases fuel, s, 2int,
{
    match s {
        SpecStatement::ExpressionStmt(e) => spec_eval_expression(e, env, cur, fuel),
        SpecStatement::Let { name, value } => match spec_eval_expression(value, env, cur, fuel) {
            None => None,
            Some((v, env1)) => Some(
                (
                    SpecObject::Null,
                    SpecEnv { scopes: bind(env1.scopes, cur, name, v), output: env1.output },
                ),
            ),
        },
        SpecStatement::Return(e) => match spec_eval_expression(e, env, cur, fuel) {
            None => None,
            Some((v, env1)) => Some((SpecObject::Return(Box::new(v)), env1)),
        },
    }
}

/// The statements of a block from index `i` on, where `last` is the value of
/// the statement before: the value of the last statement, or the first
/// `return` value (still wrapped), which ends the block.
pub open spec fn spec_eval_block(
    stmts: Seq<SpecStatement>,
    i: int,
    env: SpecEnv,
    cur: int,
    fuel: nat,
    last: SpecObject,
) -> Option<(SpecObject, SpecEnv)>
    decreases fuel, stmts, stmts.len() - i,
{
    if i < 0 || i >= stmts.len() {
        Some((last, env))
    } else {
        match spec_eval_statement(stmts[i], env, cur, fuel) {
            None => None,
            Some((v, env1)) => {
                if v is Return {
                    Some((v, env1))
                } else {
                    spec_eval_block(stmts, i + 1, env1, cur, fuel, v)
                }
            },
        }
    }
}

/// The statements of a program from index `i` on, in the outermost scope,
/// like a block, but the first `return` value is unwrapped.
pub open spec fn spec_eval_program_from(
    stmts: Seq<SpecStatement>,
    i: int,
    env: SpecEnv,
    last: SpecObject,
) -> Option<(SpecObject, SpecEnv)>
    decreases stmts.len() - i,
{
    if i < 0 || i >= stmts.len() {
        Some((last, env))
    } else {
        match spec_eval_statement(stmts[i], env, 0, u64::MAX as nat) {
            None => None,
            Some((v, env1)) => {
                if v is Return {
                    Some((*v->Return_0, env1))
                } else {
                    spec_eval_program_from(stmts, i + 1, env1, v)
                }
            },
        }
    }
}

/// The value of a program and the environment after it.
pub open spec fn spec_eval_program(stmts: Seq<SpecStatement>, env: SpecEnv) -> Option<
    (SpecObject, SpecEnv),
> {
    spec_eval_program_from(stmts, 0, env, SpecObject::Null)
}

/// The value of an evaluation, if it did not fail.
pub open spec fn opt_view(o: Option<Object>) -> Option<SpecObject> {
    match o {
        Some(v) => Some(v@),
        None => None,
    }
}

/// An evaluation outcome `r`, with the environment `env` after it, agrees
/// with the specified outcome `spec`: both failed, or both succeeded with the
/// same value and environment.
pub open spec fn agrees(r: Option<Object>, env: SpecEnv, spec: Option<(SpecObject, SpecEnv)>) -> bool {
    match spec {
        Some((v, e)) => r is Some && r.unwrap()@ == v && env == e,
        None => r is None,
    }
}

/// Evaluates the statements of `program` in order and returns the value of
/// the last one, or the value of the first `return`, unwrapped.
pub fn eval_program(program: &Program, env: &mut Environment) -> (result: Object)
    requires
        spec_eval_program(program@, old(env)@) is Some,
    ensures
        (result@, final(env)@) == spec_eval_program(program@, old(env)@).unwrap(),
        same_below(old(env)@.scopes, final(env)@.scopes, old(env)@.scopes.len() as int, 0),
{
    proof {
        lemma_frame_program(program@, 0, env@, SpecObject::Null);
    }
    match try_eval_program(program, env) {
        Some(v) => v,
        None => Object::Null,
    }
}

/// Evaluates `program` as `eval_program` does, but returns `None` where the
/// integer arithmetic would overflow or divide by zero, or calls would nest
/// too deep.
pub fn try_eval_program(program: &Program, env: &mut Environment) -> (result: Option<Object>)
    ensures
        agrees(result, final(env)@, spec_eval_program(program@, old(env)@)),
{
    let ghost stmts = program@;
    let ghost target = spec_eval_program(stmts, env@);
    let mut result = Object::Null;
    let mut i: usize = 0;
    proof {
        crate::ast::lemma_stmts_view_len(program.statements@);
    }
    while i < program.statements.len()
        invariant
            stmts == program@,
            stmts.len() == program.statements@.len(),
            target == spec_eval_program(program@, old(env)@),
            i <= program.statements@.len(),
            spec_eval_program_from(stmts, i as int, env@, result@) == target,
        decreases program.statements@.len() - i,
    {
        proof {
            lemma_stmts_view_index(program.statements@, i as int);
        }
        let r = eval_statement(&program.statements[i], env, 0, u64::MAX);
        match r {
            None => {
                return None;
            },
            Some(Object::Return(val)) => {
                return Some(*val);
            },
            Some(other) => {
                result = other;
            },
        }
        i = i + 1;
    }
    Some(result)
}

fn eval_statement(stmt: &Statement, env: &mut Environment, cur: usize, fuel: u64) -> (result: Option<Object>)
    ensures
        agrees(result, final(env)@, spec_eval_statement(stmt@, old(env)@, cur as int, fuel as nat)),
    decreases fuel, stmt, 2int,
{
    match stmt {
        Statement::ExpressionStmt(expr) => eval_expression(expr, env, cur, fuel),
        Statement::Let { name, value } => {
            match eval_expression(value, env, cur, fuel) {
                None => None,
                Some(val) => {
                    env.set_in(cur, name.clone(), val);
                    Some(Object::Null)
                },
            }
        },
        Statement::Return(expr) => {
            match eval_expression(expr, env, cur, fuel) {
                None => None,
                Some(val) => Some(Object::Return(Box::new(val))),
            }
        },
    }
}

/// The value of a name seen from scope `cur`.
fn eval_identifier(name: &String, env: &Environment, cur: usize) -> (result: Object)
    ensures
        result@ == identifier_value(env@, cur as int, name@),
{
    match env.get_in(cur, name.as_str()) {
        Some(v) => v,
        None => {
            if str_eq(name.as_str(), "len") {
                Object::Builtin(BuiltinFunction::Len)
            } else if str_eq(name.as_str(), "puts") {
                Object::Builtin(BuiltinFunction::Puts)
            } else {
                Object::Null
            }
        },
    }
}

fn eval_expression(expr: &Expression, env: &mut Environment, cur: usize, fuel: u64) -> (result: Option<Object>)
    ensures
        agrees(result, final(env)@, spec_eval_expression(expr@, old(env)@, cur as int, fuel as nat)),
    decreases fuel, expr, 2int,
{
    match expr {
        Expression::IntegerLiteral(n) => Some(Object::Integer(*n)),
        Expression::StringLiteral(x) => Some(Object::String(x.clone())),
        Expression::Identifier(name) => Some(eval_identifier(name, env, cur)),
        Expression::BooleanLiteral(b) => Some(Object::Boolean(*b)),
        Expression::Prefix { operator, right } => {
            match eval_expression(right, env, cur, fuel) {
                None => None,
                Some(right_obj) => eval_prefix(operator.as_str(), right_obj),
            }
        },
        Expression::Infix { left, operator, right } => {
            match eval_expression(left, env, cur, fuel) {
                None => None,
                Some(left_obj) => match eval_expression(right, env, cur, fuel) {
                    None => None,
                    Some(right_obj) => eval_infix(operator.as_str(), left_obj, right_obj),
                },
            }
        },
        Expression::If { condition, consequence, alternative } => {
            let alt = match alternative {
                Some(a) => Some(a),
                None => None,
            };
            eval_if(condition, consequence, alt, env, cur, fuel, Ghost(*expr))
        },
        Expression::FunctionLiteral { parameters, body } => Some(
            Object::Function {
                parameters: crate::ast::clone_strings(parameters),
                body: crate::ast::clone_statements(body),
                env: cur,
            },
        ),
        Expression::Call { function, arguments } => {
            let f = match eval_expression(function, env, cur, fuel) {
                None => {
                    return None;
                },
                Some(f) => f,
            };
            let args = match eval_args(arguments, env, cur, fuel) {
                None => {
                    return None;
                },
                Some(a) => a,
            };
            apply_function(f, args, env, fuel, Ghost(*expr))
        },
    }
}

/// Evaluates the arguments of a call in order.
fn eval_args(arguments: &Vec<Expression>, env: &mut Environment, cur: usize, fuel: u64) -> (result:
    Option<Vec<Object>>)
    ensures
        match spec_eval_args(exprs_view(arguments@), 0, old(env)@, cur as int, fuel as nat, Seq::empty()) {
            Some((vs, e)) => result is Some && objects_view(result.unwrap()@) == vs && final(env)@ == e,
            None => result is None,
        },
    decreases fuel, arguments, 2int,
{
    let ghost args = exprs_view(arguments@);
    let ghost target = spec_eval_args(args, 0, env@, cur as int, fuel as nat, Seq::empty());
    let mut values: Vec<Object> = Vec::new();
    let mut i: usize = 0;
    proof {
        crate::ast::lemma_exprs_view_len(arguments@);
        assert(objects_view(values@) =~= Seq::<SpecObject>::empty());
    }
    while i < arguments.len()
        invariant
            args == exprs_view(arguments@),
            args.len() == arguments@.len(),
            target == spec_eval_args(args, 0, old(env)@, cur as int, fuel as nat, Seq::empty()),
            i <= arguments@.len(),
            spec_eval_args(args, i as int, env@, cur as int, fuel as nat, objects_view(values@))
                == target,
        decreases arguments@.len() - i,
    {
        proof {
            lemma_exprs_view_index(arguments@, i as int);
        }
        match eval_expression(&arguments[i], env, cur, fuel) {
            None => {
                return None;
            },
            Some(v) => {
                let ghost before = values@;
                values.push(v);
                proof {
                    assert(objects_view(values@) =~= objects_view(before).push(values@.last()@));
                }
            },
        }
        i = i + 1;
    }
    Some(values)
}

/// Applies `f` to `args` in the call `call`.
fn apply_function(
    f: Object,
    args: Vec<Object>,
    env: &mut Environment,
    fuel: u64,
    Ghost(call): Ghost<Expression>,
) -> (result: Option<Object>)
    ensures
        agrees(result, final(env)@, spec_apply(call@, f@, objects_view(args@), old(env)@, fuel as nat)),
    decreases fuel, call, 1int,
{
    match f {
        Object::Function { parameters, body, env: scope } => {
            let n = env.scope_count();
            if fuel == 0 || n >= usize::MAX {
                return None;
            }
            let f = env.push_scope(scope, &parameters, args);
            let r = match eval_block(&body, env, f, fuel - 1) {
                None => {
                    return None;
                },
                Some(Object::Return(v)) => *v,
                Some(v) => v,
            };
            let keep = match &r {
                Object::Function { env: k, .. } => *k >= n,
                _ => false,
            };
            if !keep {
                env.truncate_scopes(n);
            }
            Some(r)
        },
        Object::Builtin(b) => apply_builtin(b, args, env),
        _ => Some(Object::Null),
    }
}

/// Applies a built-in function to `args`.
fn apply_builtin(b: BuiltinFunction, args: Vec<Object>, env: &mut Environment) -> (result: Option<
    Object,
>)
    ensures
        agrees(result, final(env)@, spec_builtin(b, objects_view(args@), old(env)@)),
{
    match b {
        BuiltinFunction::Len => {
            if args.len() == 1 {
                match &args[0] {
                    Object::String(x) => {
                        let n = x.as_str().unicode_len();
                        if (n as u64) <= 9223372036854775807u64 {
                            Some(Object::Integer(n as i64))
                        } else {
                            None
                        }
                    },
                    _ => Some(Object::Null),
                }
            } else {
                Some(Object::Null)
            }
        },
        BuiltinFunction::Puts => {
            let ghost e0 = env@;
            let ghost av = objects_view(args@);
            let mut i: usize = 0;
            while i < args.len()
                invariant
                    i <= args@.len(),
                    av == objects_view(args@),
                    env@.scopes == e0.scopes,
                    env@.output =~= e0.output + Seq::new(i as nat, |k: int| display(av[k])),
                decreases args@.len() - i,
            {
                let line = args[i].to_string();
                env.print_line(line);
                i = i + 1;
            }
            proof {
                assert(env@.output =~= e0.output + Seq::new(av.len(), |k: int| display(av[k])));
            }
            Some(Object::Null)
        },
    }
}

fn eval_prefix(operator: &str, right: Object) -> (result: Option<Object>)
    ensures
        opt_view(result) == spec_prefix(operator@, right@),
{
    if str_eq(operator, "!") {
        Some(eval_bang(right))
    } else if str_eq(operator, "-") {
        eval_minus_prefix(right)
    } else {
        Some(Object::Null)
    }
}

pub fn eval_bang(right: Object) -> (result: Object)
    ensures
        result@ == spec_bang(right@),
{
    match right {
        Object::Boolean(true) => Object::Boolean(false),
        Object::Boolean(false) => Object::Boolean(true),
        Object::Null => Object::Boolean(true),
        _ => Object::Boolean(false),
    }
}

fn eval_minus_prefix(right: Object) -> (result: Option<Object>)
    ensures
        opt_view(result) == spec_minus(right@),
{
    match right {
        Object::Integer(n) => match 0i64.checked_sub(n) {
            Some(m) => Some(Object::Integer(m)),
            None => None,
        },
        _ => Some(Object::Null),
    }
}

fn eval_infix(operator: &str, left: Object, right: Object) -> (result: Option<Object>)
    ensures
        opt_view(result) == spec_infix(operator@, left@, right@),
{
    match (&left, &right) {
        (Object::Integer(l), Object::Integer(r)) => eval_integer_infix(operator, *l, *r),
        (Object::Boolean(l), Object::Boolean(r)) => {
            if str_eq(operator, "==") {
                Some(Object::Boolean(*l == *r))
            } else if str_eq(operator, "!=") {
                Some(Object::Boolean(*l != *r))
            } else {
                Some(Object::Null)
            }
        },
        _ => Some(Object::Null),
    }
}

/// An integer result as a value.
fn integer_object(r: Option<i64>) -> (o: Option<Object>)
    ensures
        match r {
            Some(n) => o == Some(Object::Integer(n)),
            None => o is None,
        },
{
    match r {
        Some(n) => Some(Object::Integer(n)),
        None => None,
    }
}

fn eval_integer_infix(operator: &str, left: i64, right: i64) -> (result: Option<Object>)
    ensures
        opt_view(result) == spec_integer_infix(operator@, left as int, right as int),
{
    if str_eq(operator, "+") {
        integer_object(left.checked_add(right))
    } else if str_eq(operator, "-") {
        integer_object(left.checked_sub(right))
    } else if str_eq(operator, "*") {
        integer_object(left.checked_mul(right))
    } else if str_eq(operator, "/") {
        integer_object(left.checked_div(right))
    } else if str_eq(operator, "<") {
        Some(Object::Boolean(left < right))
    } else if str_eq(operator, ">") {
        Some(Object::Boolean(left > right))
    } else if str_eq(operator, "==") {
        Some(Object::Boolean(left == right))
    } else if str_eq(operator, "!=") {
        Some(Object::Boolean(left != right))
    } else {
        Some(Object::Null)
    }
}

fn eval_if(
    condition: &Expression,
    consequence: &Vec<Statement>,
    alternative: Option<&Vec<Statement>>,
    env: &mut Environment,
    cur: usize,
    fuel: u64,
    Ghost(whole): Ghost<Expression>,
) -> (result: Option<Object>)
    requires
        whole is If,
        *whole->If_condition == *condition,
        whole->If_consequence == *consequence,
        match alternative {
            Some(a) => whole->If_alternative == Some(*a),
            None => whole->If_alternative is None,
        },
    ensures
        agrees(result, final(env)@, spec_eval_expression(whole@, old(env)@, cur as int, fuel as nat)),
    decreases fuel, whole, 1int,
{
    match eval_expression(condition, env, cur, fuel) {
        None => None,
        Some(cond) => {
            if is_truthy(cond) {
                eval_block(consequence, env, cur, fuel)
            } else {
                match alternative {
                    Some(alt) => eval_block(alt, env, cur, fuel),
                    None => Some(Object::Null),
                }
            }
        },
    }
}

fn eval_block(statements: &Vec<Statement>, env: &mut Environment, cur: usize, fuel: u64) -> (result:
    Option<Object>)
    ensures
        agrees(
            result,
            final(env)@,
            spec_eval_block(stmts_view(statements@), 0, old(env)@, cur as int, fuel as nat, SpecObject::Null),
        ),
    decreases fuel, statements, 2int,
{
    let ghost stmts = stmts_view(statements@);
    let ghost target = spec_eval_block(stmts, 0, env@, cur as int, fuel as nat, SpecObject::Null);
    let mut result = Object::Null;
    let mut i: usize = 0;
    proof {
        crate::ast::lemma_stmts_view_len(statements@);
    }
    while i < statements.len()
        invariant
            stmts == stmts_view(statements@),
            stmts.len() == statements@.len(),
            target == spec_eval_block(stmts_view(statements@), 0, old(env)@, cur as int, fuel as nat, SpecObject::Null),
            i <= statements@.len(),
            spec_eval_block(stmts, i as int, env@, cur as int, fuel as nat, result@) == target,
        decreases statements@.len() - i,
    {
        proof {
            lemma_stmts_view_index(statements@, i as int);
        }
        match eval_statement(&statements[i], env, cur, fuel) {
            None => {
                return None;
            },
            Some(r) => {
                if let Object::Return(_) = &r {
                    return Some(r);
                }
                result = r;
            },
        }
        i = i + 1;
    }
    Some(result)
}

fn is_truthy(obj: Object) -> (r: bool)
    ensures
        r == spec_is_truthy(obj@),
{
    match obj {
        Object::Null => false,
        Object::Boolean(false) => false,
        _ => true,
    }
}

/// `!v` is `true` exactly when `v` does not count as true.
pub proof fn lemma_bang_negates_truthiness(v: SpecObject)
    ensures
        spec_bang(v) == SpecObject::Boolean(!spec_is_truthy(v)),
{
}

/// Integer comparison follows the order of the integers: `a < b` is true
/// exactly when `a` is less than `b`, `a > b` exactly when it is greater,
/// `==` and `!=` test equality; `+`, `-` and `*` compute the sum, difference
/// and product wherever these fit in `i64`, and fail elsewhere.
pub proof fn lemma_integer_comparisons(a: int, b: int)
    ensures
        spec_integer_infix("<"@, a, b) == Some(SpecObject::Boolean(a < b)),
        spec_integer_infix(">"@, a, b) == Some(SpecObject::Boolean(a > b)),
        spec_integer_infix("<"@, a, b) == spec_integer_infix(">"@, b, a),
        in_i64(a + b) ==> spec_integer_infix("+"@, a, b) == Some(SpecObject::Integer(a + b)),
        !in_i64(a + b) ==> spec_integer_infix("+"@, a, b) is None,
        in_i64(a - b) ==> spec_integer_infix("-"@, a, b) == Some(SpecObject::Integer(a - b)),
        !in_i64(a - b) ==> spec_integer_infix("-"@, a, b) is None,
        in_i64(a * b) ==> spec_integer_infix("*"@, a, b) == Some(SpecObject::Integer(a * b)),
        !in_i64(a * b) ==> spec_integer_infix("*"@, a, b) is None,
        b == 0 ==> spec_integer_infix("/"@, a, b) is None,
        spec_integer_infix("=="@, a, b) == Some(SpecObject::Boolean(a == b)),
        spec_integer_infix("!="@, a, b) == Some(SpecObject::Boolean(a != b)),
        spec_integer_infix("+"@, a, b) == spec_integer_infix("+"@, b, a),
        spec_integer_infix("*"@, a, b) == spec_integer_infix("*"@, b, a),
{
    reveal_strlit("+");
    reveal_strlit("-");
    reveal_strlit("*");
    reveal_strlit("/");
    reveal_strlit("<");
    reveal_strlit(">");
    reveal_strlit("==");
    reveal_strlit("!=");
    // The operators differ in their first characters.
    assert("+"@[0] == '+' && "-"@[0] == '-' && "*"@[0] == '*' && "/"@[0] == '/');
    assert("<"@[0] == '<' && ">"@[0] == '>' && "=="@[0] == '=' && "!="@[0] == '!');
    assert forall|x: Seq<char>, y: Seq<char>|
        #![trigger x[0], y[0]]
        x.len() > 0 && y.len() > 0 && x[0] != y[0] implies x != y by {}
    assert(a * b == b * a) by (nonlinear_arith);
}

/// `b` has at least `n` scopes and holds the same scopes as `a` below index
/// `n`, except perhaps scope `cur`.
pub open spec fn same_below(a: Seq<SpecScope>, b: Seq<SpecScope>, n: int, cur: int) -> bool {
    &&& b.len() >= n
    &&& forall|j: int| 0 <= j < n && j != cur ==> #[trigger] b[j] == a[j]
}

/// An outcome, if any, leaves the scopes of `env` below their number as they
/// were, except perhaps scope `cur`.
pub open spec fn frame_kept(r: Option<(SpecObject, SpecEnv)>, env: SpecEnv, cur: int) -> bool {
    r matches Some((_, e)) ==> same_below(env.scopes, e.scopes, env.scopes.len() as int, cur)
}

/// Evaluating an expression in scope `cur` changes no scope that existed
/// before it other than `cur`: a call's own scopes lie above them.
pub proof fn lemma_frame_expression(e: SpecExpression, env: SpecEnv, cur: int, fuel: nat)
    ensures
        frame_kept(spec_eval_expression(e, env, cur, fuel), env, cur),
    decreases fuel, e, 2int,
{
    match e {
        SpecExpression::Prefix { operator, right } => {
            lemma_frame_expression(*right, env, cur, fuel);
        },
        SpecExpression::Infix { left, operator, right } => {
            lemma_frame_expression(*left, env, cur, fuel);
            match spec_eval_expression(*left, env, cur, fuel) {
                Some((l, env1)) => lemma_frame_expression(*right, env1, cur, fuel),
                None => {},
            }
        },
        SpecExpression::If { condition, consequence, alternative } => {
            lemma_frame_expression(*condition, env, cur, fuel);
            match spec_eval_expression(*condition, env, cur, fuel) {
                Some((c, env1)) => {
                    lemma_frame_block(consequence, 0, env1, cur, fuel, SpecObject::Null);
                    match alternative {
                        Some(alt) => lemma_frame_block(alt, 0, env1, cur, fuel, SpecObject::Null),
                        None => {},
                    }
                },
                None => {},
            }
        },
        SpecExpression::Call { function, arguments } => {
            lemma_frame_expression(*function, env, cur, fuel);
            match spec_eval_expression(*function, env, cur, fuel) {
                Some((f, env1)) => {
                    lemma_frame_args(arguments, 0, env1, cur, fuel, Seq::empty());
                    match spec_eval_args(arguments, 0, env1, cur, fuel, Seq::empty()) {
                        Some((args, env2)) => lemma_frame_apply(e, f, args, env2, fuel),
                        None => {},
                    }
                },
                None => {},
            }
        },
        _ => {},
    }
}

proof fn lemma_frame_args(
    args: Seq<SpecExpression>,
    i: int,
    env: SpecEnv,
    cur: int,
    fuel: nat,
    acc: Seq<SpecObject>,
)
    ensures
        spec_eval_args(args, i, env, cur, fuel, acc) matches Some((_, e)) ==> same_below(
            env.scopes,
            e.scopes,
            env.scopes.len() as int,
            cur,
        ),
    decreases fuel, args, args.len() - i,
{
    if 0 <= i < args.len() {
        lemma_frame_expression(args[i], env, cur, fuel);
        match spec_eval_expression(args[i], env, cur, fuel) {
            Some((v, env1)) => lemma_frame_args(args, i + 1, env1, cur, fuel, acc.push(v)),
            None => {},
        }
    }
}

/// A call changes none of the scopes that existed before it; where its
/// value is not a function made in a scope it added, it leaves exactly the
/// scopes it found.
pub proof fn lemma_frame_apply(
    call: SpecExpression,
    f: SpecObject,
    args: Seq<SpecObject>,
    env: SpecEnv,
    fuel: nat,
)
    ensures
        frame_kept(spec_apply(call, f, args, env, fuel), env, -1),
        spec_apply(call, f, args, env, fuel) matches Some((v, e)) ==> (!made_at_or_above(
            v,
            env.scopes.len() as int,
        ) ==> e.scopes == env.scopes),
    decreases fuel, call, 1int,
{
    match f {
        SpecObject::Function { parameters, body, env: scope } => {
            if fuel > 0 && env.scopes.len() < usize::MAX {
                let n = env.scopes.len() as int;
                let env1 = SpecEnv {
                    scopes: new_scope(env.scopes, scope, parameters, args),
                    output: env.output,
                };
                lemma_frame_block(body, 0, env1, n, (fuel - 1) as nat, SpecObject::Null);
                match spec_eval_block(body, 0, env1, n, (fuel - 1) as nat, SpecObject::Null) {
                    Some((v, env2)) => {
                        assert(forall|j: int| 0 <= j < n ==> #[trigger] env1.scopes[j] == env.scopes[j]);
                        let r = unwrap_return(v);
                        if !made_at_or_above(r, n) {
                            assert(env2.scopes.subrange(0, n) =~= env.scopes);
                        }
                    },
                    None => {},
                }
            }
        },
        _ => {},
    }
}

proof fn lemma_frame_statement(st: SpecStatement, env: SpecEnv, cur: int, fuel: nat)
    ensures
        frame_kept(spec_eval_statement(st, env, cur, fuel), env, cur),
    decreases fuel, st, 2int,
{
    match st {
        SpecStatement::ExpressionStmt(e) => lemma_frame_expression(e, env, cur, fuel),
        SpecStatement::Let { name, value } => lemma_frame_expression(value, env, cur, fuel),
        SpecStatement::Return(e) => lemma_frame_expression(e, env, cur, fuel),
    }
}

proof fn lemma_frame_block(
    stmts: Seq<SpecStatement>,
    i: int,
    env: SpecEnv,
    cur: int,
    fuel: nat,
    last: SpecObject,
)
    ensures
        frame_kept(spec_eval_block(stmts, i, env, cur, fuel, last), env, cur),
    decreases fuel, stmts, stmts.len() - i,
{
    if 0 <= i < stmts.len() {
        lemma_frame_statement(stmts[i], env, cur, fuel);
        match spec_eval_statement(stmts[i], env, cur, fuel) {
            Some((v, env1)) => {
                if !(v is Return) {
                    lemma_frame_block(stmts, i + 1, env1, cur, fuel, v);
                }
            },
            None => {},
        }
    }
}

/// A program changes no scope other than the outermost one among those it
/// found.
pub proof fn lemma_frame_program(stmts: Seq<SpecStatement>, i: int, env: SpecEnv, last: SpecObject)
    ensures
        frame_kept(spec_eval_program_from(stmts, i, env, last), env, 0),
    decreases stmts.len() - i,
{
    if 0 <= i < stmts.len() {
        lemma_frame_statement(stmts[i], env, 0, u64::MAX as nat);
        match spec_eval_statement(stmts[i], env, 0, u64::MAX as nat) {
            Some((v, env1)) => {
                if !(v is Return) {
                    lemma_frame_program(stmts, i + 1, env1, v);
                }
            },
            None => {},
        }
    }
}

/// A `let` binds the value of its expression: a program that binds a name and
/// then names it has the bound value (unwrapped if it is a `return` value),
/// and ends with the name bound to it in the outermost scope.
pub proof fn lemma_let_then_lookup(name: Seq<char>, e: SpecExpression, env: SpecEnv)
    requires
        env.scopes.len() > 0,
        spec_eval_expression(e, env, 0, u64::MAX as nat) is Some,
    ensures
        ({
            let (v, env1) = spec_eval_expression(e, env, 0, u64::MAX as nat).unwrap();
            let program = seq![
                SpecStatement::Let { name: name, value: e },
                SpecStatement::ExpressionStmt(SpecExpression::Identifier(name)),
            ];
            let env2 = SpecEnv { scopes: bind(env1.scopes, 0, name, v), output: env1.output };
            spec_eval_program(program, env) == Some((unwrap_return(v), env2))
        }),
{
    let fuel = u64::MAX as nat;
    let (v, env1) = spec_eval_expression(e, env, 0, fuel).unwrap();
    lemma_frame_expression(e, env, 0, fuel);
    let program = seq![
        SpecStatement::Let { name: name, value: e },
        SpecStatement::ExpressionStmt(SpecExpression::Identifier(name)),
    ];
    let env2 = SpecEnv { scopes: bind(env1.scopes, 0, name, v), output: env1.output };
    crate::environment::lemma_get_after_set(env1.scopes, 0, name, v, name);
    assert(identifier_value(env2, 0, name) == v);
    assert(spec_eval_statement(program[0], env, 0, fuel) == Some((SpecObject::Null, env2)));
    assert(spec_eval_statement(program[1], env2, 0, fuel) == Some((v, env2)));
    assert(spec_eval_program_from(program, 2, env2, v) == Some((v, env2)));
    assert(spec_eval_program_from(program, 1, env2, SpecObject::Null) == Some((unwrap_return(v), env2)));
}

/// Evaluating a comparison of two integer literals gives the order of the
/// integers and leaves the environment as it was.
pub proof fn lemma_comparison_of_literals(a: int, b: int, env: SpecEnv, cur: int, fuel: nat)
    ensures
        spec_eval_expression(
            SpecExpression::Infix {
                left: Box::new(SpecExpression::IntegerLiteral(a)),
                operator: "<"@,
                right: Box::new(SpecExpression::IntegerLiteral(b)),
            },
            env,
            cur,
            fuel,
        ) == Some((SpecObject::Boolean(a < b), env)),
        spec_eval_expression(
            SpecExpression::Infix {
                left: Box::new(SpecExpression::IntegerLiteral(a)),
                operator: ">"@,
                right: Box::new(SpecExpression::IntegerLiteral(b)),
            },
            env,
            cur,
            fuel,
        ) == Some((SpecObject::Boolean(a > b), env)),
{
    lemma_integer_comparisons(a, b);
    let l = SpecExpression::IntegerLiteral(a);
    let r = SpecExpression::IntegerLiteral(b);
    assert(spec_eval_expression(l, env, cur, fuel) == Some((SpecObject::Integer(a), env)));
    assert(spec_eval_expression(r, env, cur, fuel) == Some((SpecObject::Integer(b), env)));
    assert(spec_infix("<"@, SpecObject::Integer(a), SpecObject::Integer(b)) == Some(SpecObject::Boolean(a < b)));
    assert(spec_infix(">"@, SpecObject::Integer(a), SpecObject::Integer(b)) == Some(SpecObject::Boolean(a > b)));
}

} // verus!
