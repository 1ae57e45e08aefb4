//! The values that evaluation produces.

use vstd::prelude::*;
use crate::ast::{clone_statements, clone_strings, stmts_view, strings_view, SpecStatement, Statement};
use crate::text::{decimal_chars, decimal_string};

verus! {

/// A value of the language.
#[derive(Debug, PartialEq)]
pub enum Object {
    Integer(i64),
    String(String),
    Boolean(bool),
    Null,
    /// A value on its way out of a `return`.
    Return(Box<Object>),
    /// A function value: its parameters, its body, and the index (in the
    /// evaluator's environment) of the scope it was created in.
    Function { parameters: Vec<String>, body: Vec<Statement>, env: usize },
    /// A built-in function.
    Builtin(BuiltinFunction),
}

/// The built-in functions.
#[derive(Debug, PartialEq, Eq, Structural, Clone, Copy)]
pub enum BuiltinFunction {
    /// `len(s)`: the number of characters of a string.
    Len,
    /// `puts(..)`: prints each argument on a line of its own.
    Puts,
}

/// The mathematical value of an `Object`.
pub enum SpecObject {
    Integer(int),
    String(Seq<char>),
    Boolean(bool),
    Null,
    Return(Box<SpecObject>),
    Function { parameters: Seq<Seq<char>>, body: Seq<SpecStatement>, env: int },
    Builtin(BuiltinFunction),
}

pub open spec fn object_view(o: Object) -> SpecObject
    decreases o,
{
    match o {
        Object::Integer(n) => SpecObject::Integer(n as int),
        Object::String(s) => SpecObject::String(s@),
        Object::Boolean(b) => SpecObject::Boolean(b),
        Object::Null => SpecObject::Null,
        Object::Return(v) => SpecObject::Return(Box::new(object_view(*v))),
        Object::Function { parameters, body, env } => SpecObject::Function {
            parameters: strings_view(parameters@),
            body: stmts_view(body@),
            env: env as int,
        },
        Object::Builtin(b) => SpecObject::Builtin(b),
    }
}

impl View for Object {
    type V = SpecObject;

    open spec fn view(&self) -> SpecObject {
        object_view(*self)
    }
}

/// The views of a list of values.
pub open spec fn objects_view(v: Seq<Object>) -> Seq<SpecObject> {
    Seq::new(v.len(), |i: int| v[i]@)
}

/// Copies a value, keeping its view.
pub fn clone_object(o: &Object) -> (r: Object)
    ensures
        r@ == o@,
    decreases o,
{
    match o {
        Object::Integer(n) => Object::Integer(*n),
        Object::String(s) => Object::String(s.clone()),
        Object::Boolean(b) => Object::Boolean(*b),
        Object::Null => Object::Null,
        Object::Return(v) => Object::Return(Box::new(clone_object(v))),
        Object::Function { parameters, body, env } => Object::Function {
            parameters: clone_strings(parameters),
            body: clone_statements(body),
            env: *env,
        },
        Object::Builtin(b) => Object::Builtin(*b),
    }
}

impl Clone for Object {
    fn clone(&self) -> (r: Self)
        ensures
            r@ == self@,
    {
        clone_object(self)
    }
}

/// The strings joined, with `sep` between each two.
pub open spec fn join_with(v: Seq<Seq<char>>, sep: Seq<char>) -> Seq<char>
    decreases v.len(),
{
    if v.len() == 0 {
        Seq::empty()
    } else if v.len() == 1 {
        v[0]
    } else {
        join_with(v.drop_last(), sep) + sep + v.last()
    }
}

/// How a value is printed.
pub open spec fn display(o: SpecObject) -> Seq<char>
    decreases o,
{
    match o {
        SpecObject::Integer(n) => decimal_chars(n),
        SpecObject::String(s) => s,
        SpecObject::Boolean(b) => if b {
            "true"@
        } else {
            "false"@
        },
        SpecObject::Null => "null"@,
        SpecObject::Return(v) => display(*v),
        SpecObject::Function { parameters, .. } => "fn("@ + join_with(parameters, ", "@)
            + ") { ... }"@,
        SpecObject::Builtin(_) => "<builtin function>"@,
    }
}

/// The strings of `v` joined with `sep`.
fn join_strings(v: &Vec<String>, sep: &str) -> (r: String)
    ensures
        r@ == join_with(strings_view(v@), sep@),
{
    let mut r = String::new();
    let mut i: usize = 0;
    let ghost w = strings_view(v@);
    while i < v.len()
        invariant
            i <= v@.len(),
            w == strings_view(v@),
            r@ == join_with(w.subrange(0, i as int), sep@),
        decreases v@.len() - i,
    {
        let ghost before = r@;
        if i != 0 {
            r.append(sep);
        }
        r.append(v[i].as_str());
        proof {
            let t = w.subrange(0, i + 1);
            assert(t.drop_last() =~= w.subrange(0, i as int));
            if i == 0 {
                assert(before =~= Seq::<char>::empty());
                assert(r@ =~= t[0]);
            } else {
                assert(r@ =~= before + sep@ + t.last());
            }
        }
        i = i + 1;
    }
    assert(w.subrange(0, v@.len() as int) =~= w);
    r
}

impl Object {
    /// The text by which the value is printed.
    pub fn to_string(&self) -> (r: String)
        ensures
            r@ == display(self@),
        decreases self,
    {
        match self {
            Object::Integer(n) => decimal_string(*n),
            Object::String(s) => s.clone(),
            Object::Boolean(b) => if *b {
                "true".to_string()
            } else {
                "false".to_string()
            },
            Object::Null => "null".to_string(),
            Object::Return(v) => v.to_string(),
            Object::Function { parameters, .. } => {
                let mut r = "fn(".to_string();
                let j = join_strings(parameters, ", ");
                r.append(j.as_str());
                r.append(") { ... }");
                r
            },
            Object::Builtin(_) => "<builtin function>".to_string(),
        }
    }
}

} // verus!
