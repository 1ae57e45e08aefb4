//! The environment: the scopes that hold the values bound to names, and the
//! lines printed by `puts`.
//!
//! Scopes are kept in a list and named by their index; scope 0 is the
//! outermost one. A scope may have an enclosing scope with a smaller index,
//! in which names it does not bind are looked up. A function value holds the
//! index of the scope it was created in, which is how it sees the names
//! around it (a closure).

use vstd::prelude::*;
use crate::object::{clone_object, Object, SpecObject};
use crate::token::str_eq;

verus! {

/// The mathematical view of a scope: its bindings in the order they were
/// made (a later binding of a name hides an earlier one) and its enclosing
/// scope.
pub struct SpecScope {
    pub vars: Seq<(Seq<char>, SpecObject)>,
    pub outer: Option<int>,
}

/// The mathematical view of an environment: its scopes and the lines printed
/// so far.
pub struct SpecEnv {
    pub scopes: Seq<SpecScope>,
    pub output: Seq<Seq<char>>,
}

/// The value most recently bound to `name` in `vars`.
pub open spec fn find_var(vars: Seq<(Seq<char>, SpecObject)>, name: Seq<char>) -> Option<SpecObject>
    decreases vars.len(),
{
    if vars.len() == 0 {
        None
    } else if vars.last().0 == name {
        Some(vars.last().1)
    } else {
        find_var(vars.drop_last(), name)
    }
}

/// The value of `name` seen from scope `f`: its own binding, or else the one
/// seen from its enclosing scope.
pub open spec fn lookup(scopes: Seq<SpecScope>, f: int, name: Seq<char>) -> Option<SpecObject>
    decreases f,
{
    if 0 <= f < scopes.len() {
        match find_var(scopes[f].vars, name) {
            Some(v) => Some(v),
            None => match scopes[f].outer {
                Some(o) => if 0 <= o < f {
                    lookup(scopes, o, name)
                } else {
                    None
                },
                None => None,
            },
        }
    } else {
        None
    }
}

/// The scopes after binding `name` to `v` in scope `f`.
pub open spec fn bind(scopes: Seq<SpecScope>, f: int, name: Seq<char>, v: SpecObject) -> Seq<SpecScope> {
    if 0 <= f < scopes.len() {
        scopes.update(f, SpecScope { vars: scopes[f].vars.push((name, v)), outer: scopes[f].outer })
    } else {
        scopes
    }
}

/// The scopes after adding a scope that binds `names[i]` to `values[i]` (for
/// the indices that both have) and is enclosed by scope `outer`.
pub open spec fn new_scope(
    scopes: Seq<SpecScope>,
    outer: int,
    names: Seq<Seq<char>>,
    values: Seq<SpecObject>,
) -> Seq<SpecScope> {
    scopes.push(
        SpecScope {
            vars: Seq::new(
                if names.len() < values.len() {
                    names.len()
                } else {
                    values.len()
                },
                |i: int| (names[i], values[i]),
            ),
            outer: Some(outer),
        },
    )
}

/// One scope.
struct Scope {
    vars: Vec<(String, Object)>,
    outer: Option<usize>,
}

/// The environment of an evaluation.
pub struct Environment {
    scopes: Vec<Scope>,
    output: Vec<String>,
}

/// The view of a list of bindings.
pub open spec fn vars_view(v: Seq<(String, Object)>) -> Seq<(Seq<char>, SpecObject)> {
    Seq::new(v.len(), |i: int| (v[i].0@, v[i].1@))
}

/// The view of a list of strings.
pub open spec fn lines_view(v: Seq<String>) -> Seq<Seq<char>> {
    Seq::new(v.len(), |i: int| v[i]@)
}

impl View for Environment {
    type V = SpecEnv;

    closed spec fn view(&self) -> SpecEnv {
        SpecEnv {
            scopes: Seq::new(
                self.scopes@.len(),
                |i: int|
                    SpecScope {
                        vars: vars_view(self.scopes@[i].vars@),
                        outer: match self.scopes@[i].outer {
                            Some(o) => Some(o as int),
                            None => None,
                        },
                    },
            ),
            output: lines_view(self.output@),
        }
    }
}

impl Environment {
    /// Creates an environment with one empty scope and nothing printed.
    pub fn new() -> (env: Environment)
        ensures
            env@.scopes == seq![SpecScope { vars: Seq::empty(), outer: None }],
            env@.output == Seq::<Seq<char>>::empty(),
    {
        let mut scopes: Vec<Scope> = Vec::new();
        scopes.push(Scope { vars: Vec::new(), outer: None });
        let env = Environment { scopes, output: Vec::new() };
        assert(env@.scopes[0].vars =~= Seq::<(Seq<char>, SpecObject)>::empty());
        assert(env@.scopes =~= seq![SpecScope { vars: Seq::empty(), outer: None }]);
        assert(env@.output =~= Seq::<Seq<char>>::empty());
        env
    }

    /// The number of scopes.
    pub fn scope_count(&self) -> (n: usize)
        ensures
            n == self@.scopes.len(),
    {
        self.scopes.len()
    }

    /// A copy of the value of `name` seen from scope `f`, if any.
    pub fn get_in(&self, f: usize, name: &str) -> (r: Option<Object>)
        ensures
            match r {
                Some(v) => lookup(self@.scopes, f as int, name@) == Some(v@),
                None => lookup(self@.scopes, f as int, name@) is None,
            },
    {
        let ghost sc = self@.scopes;
        let mut cur = f;
        loop
            invariant
                sc == self@.scopes,
                lookup(sc, cur as int, name@) == lookup(sc, f as int, name@),
            decreases cur,
        {
            if cur >= self.scopes.len() {
                return None;
            }
            let vars = &self.scopes[cur].vars;
            let ghost vv = sc[cur as int].vars;
            assert(vv == vars_view(vars@));
            let mut i = vars.len();
            proof {
                assert(vv.subrange(0, vv.len() as int) =~= vv);
            }
            while i > 0
                invariant
                    sc == self@.scopes,
                    cur < sc.len(),
                    i <= vars@.len(),
                    vv == sc[cur as int].vars,
                    vv == vars_view(vars@),
                    find_var(vv.subrange(0, i as int), name@) == find_var(vv, name@),
                    lookup(sc, cur as int, name@) == lookup(sc, f as int, name@),
                decreases i,
            {
                proof {
                    assert(vv.subrange(0, i as int).drop_last() =~= vv.subrange(0, i - 1));
                    assert(vv.subrange(0, i as int).last() == vv[i - 1]);
                }
                if str_eq(vars[i - 1].0.as_str(), name) {
                    return Some(clone_object(&vars[i - 1].1));
                }
                i = i - 1;
            }
            proof {
                assert(vv.subrange(0, 0) =~= Seq::<(Seq<char>, SpecObject)>::empty());
            }
            match self.scopes[cur].outer {
                Some(o) => {
                    if o < cur {
                        cur = o;
                    } else {
                        return None;
                    }
                },
                None => {
                    return None;
                },
            }
        }
    }

    /// A copy of the value bound to `name` in the outermost scope, if any.
    pub fn get(&self, name: &String) -> (r: Option<Object>)
        ensures
            match r {
                Some(v) => lookup(self@.scopes, 0, name@) == Some(v@),
                None => lookup(self@.scopes, 0, name@) is None,
            },
    {
        self.get_in(0, name.as_str())
    }

    /// Binds `name` to `val` in scope `f`, hiding any earlier binding of it
    /// there.
    pub fn set_in(&mut self, f: usize, name: String, val: Object)
        ensures
            final(self)@.scopes == bind(old(self)@.scopes, f as int, name@, val@),
            final(self)@.output == old(self)@.output,
    {
        if f < self.scopes.len() {
            let ghost n = name@;
            let ghost v = val@;
            self.scopes[f].vars.push((name, val));
            proof {
                assert(self@.scopes[f as int].vars =~= old(self)@.scopes[f as int].vars.push((n, v)));
                assert(self@.scopes =~= bind(old(self)@.scopes, f as int, n, v));
            }
        }
    }

    /// Binds `name` to `val` in the outermost scope, hiding any earlier
    /// binding of it.
    pub fn set(&mut self, name: String, val: Object)
        ensures
            final(self)@.scopes == bind(old(self)@.scopes, 0, name@, val@),
            final(self)@.output == old(self)@.output,
    {
        self.set_in(0, name, val)
    }

    /// Adds a scope enclosed by scope `outer` that binds each of `names` to the
    /// value at the same index of `values`, and returns its index.
    pub fn push_scope(&mut self, outer: usize, names: &Vec<String>, values: Vec<Object>) -> (f: usize)
        requires
            old(self)@.scopes.len() < usize::MAX,
        ensures
            f == old(self)@.scopes.len(),
            final(self)@.scopes == new_scope(
                old(self)@.scopes,
                outer as int,
                crate::ast::strings_view(names@),
                crate::object::objects_view(values@),
            ),
            final(self)@.output == old(self)@.output,
    {
        let ghost nv = crate::ast::strings_view(names@);
        let ghost ov = crate::object::objects_view(values@);
        let n = if names.len() < values.len() {
            names.len()
        } else {
            values.len()
        };
        let mut vars: Vec<(String, Object)> = Vec::new();
        let mut i: usize = 0;
        while i < n
            invariant
                n <= names@.len(),
                n <= values@.len(),
                i <= n,
                nv == crate::ast::strings_view(names@),
                ov == crate::object::objects_view(values@),
                vars_view(vars@) =~= Seq::new(i as nat, |k: int| (nv[k], ov[k])),
            decreases n - i,
        {
            let ghost before = vars@;
            vars.push((names[i].clone(), clone_object(&values[i])));
            proof {
                assert(vars_view(vars@) =~= vars_view(before).push((nv[i as int], ov[i as int])));
            }
            i = i + 1;
        }
        let f = self.scopes.len();
        self.scopes.push(Scope { vars, outer: Some(outer) });
        proof {
            assert(self@.scopes =~= new_scope(old(self)@.scopes, outer as int, nv, ov));
        }
        f
    }

    /// Drops the scopes at index `n` and above.
    pub fn truncate_scopes(&mut self, n: usize)
        ensures
            final(self)@.scopes == if n <= old(self)@.scopes.len() {
                old(self)@.scopes.subrange(0, n as int)
            } else {
                old(self)@.scopes
            },
            final(self)@.output == old(self)@.output,
    {
        self.scopes.truncate(n);
        proof {
            if n <= old(self)@.scopes.len() {
                assert(self@.scopes =~= old(self)@.scopes.subrange(0, n as int));
            } else {
                assert(self@.scopes =~= old(self)@.scopes);
            }
            assert(self@.output =~= old(self)@.output);
        }
    }

    /// Records a printed line.
    pub fn print_line(&mut self, line: String)
        ensures
            final(self)@.scopes == old(self)@.scopes,
            final(self)@.output == old(self)@.output.push(line@),
    {
        self.output.push(line);
        proof {
            assert(self@.scopes =~= old(self)@.scopes);
            assert(self@.output =~= old(self)@.output.push(line@));
        }
    }

    /// Hands out the lines printed so far and forgets them.
    pub fn take_output(&mut self) -> (lines: Vec<String>)
        ensures
            lines_view(lines@) == old(self)@.output,
            final(self)@.scopes == old(self)@.scopes,
            final(self)@.output == Seq::<Seq<char>>::empty(),
    {
        let mut lines: Vec<String> = Vec::new();
        std::mem::swap(&mut lines, &mut self.output);
        proof {
            assert(self@.scopes =~= old(self)@.scopes);
            assert(self@.output =~= Seq::<Seq<char>>::empty());
        }
        lines
    }
}

/// The value most recently bound to `name` in `vars` is the one of the last
/// binding of `name`.
pub proof fn lemma_find_last(vars: Seq<(Seq<char>, SpecObject)>, i: int, name: Seq<char>)
    requires
        0 <= i < vars.len(),
        vars[i].0 == name,
        forall|j: int| i < j < vars.len() ==> #[trigger] vars[j].0 != name,
    ensures
        find_var(vars, name) == Some(vars[i].1),
    decreases vars.len(),
{
    if i < vars.len() - 1 {
        lemma_find_last(vars.drop_last(), i, name);
    }
}

/// A name bound nowhere in `vars` is not found there.
pub proof fn lemma_find_absent(vars: Seq<(Seq<char>, SpecObject)>, name: Seq<char>)
    requires
        forall|j: int| 0 <= j < vars.len() ==> #[trigger] vars[j].0 != name,
    ensures
        find_var(vars, name) is None,
    decreases vars.len(),
{
    if vars.len() > 0 {
        lemma_find_absent(vars.drop_last(), name);
    }
}

/// A call's scope binds the `i`-th parameter to the `i`-th argument: seen
/// from the new scope, `names[i]` has the value `values[i]` (for the last
/// parameter of that name), and a name that is no parameter is seen as from
/// the enclosing scope.
pub proof fn lemma_new_scope_binds_in_order(
    scopes: Seq<SpecScope>,
    outer: int,
    names: Seq<Seq<char>>,
    values: Seq<SpecObject>,
    i: int,
    other: Seq<char>,
)
    requires
        0 <= outer < scopes.len(),
    ensures
        ({
            let n = if names.len() < values.len() {
                names.len() as int
            } else {
                values.len() as int
            };
            let f = scopes.len() as int;
            let ns = new_scope(scopes, outer, names, values);
            &&& (0 <= i < n && (forall|j: int| i < j < n ==> names[j] != names[i])) ==> lookup(
                ns,
                f,
                names[i],
            ) == Some(values[i])
            &&& (forall|j: int| 0 <= j < n ==> names[j] != other) ==> lookup(ns, f, other)
                == lookup(scopes, outer, other)
        }),
{
    let n = if names.len() < values.len() {
        names.len() as int
    } else {
        values.len() as int
    };
    let f = scopes.len() as int;
    let ns = new_scope(scopes, outer, names, values);
    let vars = ns[f].vars;
    assert(vars.len() == n);
    if 0 <= i < n && (forall|j: int| i < j < n ==> names[j] != names[i]) {
        assert forall|j: int| i < j < vars.len() implies #[trigger] vars[j].0 != names[i] by {
            assert(vars[j].0 == names[j]);
        }
        lemma_find_last(vars, i, names[i]);
    }
    if forall|j: int| 0 <= j < n ==> names[j] != other {
        assert forall|j: int| 0 <= j < vars.len() implies #[trigger] vars[j].0 != other by {
            assert(vars[j].0 == names[j]);
        }
        lemma_find_absent(vars, other);
        assert(forall|j: int| 0 <= j < f ==> ns[j] == scopes[j]);
        lemma_lookup_prefix(scopes, ns, outer, f, other);
    }
}

/// Reading a name in a scope right after binding it there gives the bound
/// value; a binding in one scope leaves what other names are seen as, and
/// what any name is seen as from another scope that does not enclose it,
/// unchanged.
pub proof fn lemma_get_after_set(scopes: Seq<SpecScope>, f: int, name: Seq<char>, v: SpecObject, other: Seq<char>)
    requires
        0 <= f < scopes.len(),
    ensures
        lookup(bind(scopes, f, name, v), f, name) == Some(v),
        other != name ==> lookup(bind(scopes, f, other, v), f, name) == lookup(scopes, f, name),
{
    let b = bind(scopes, f, name, v);
    assert(b[f].vars.last() == (name, v));
    if other != name {
        let b2 = bind(scopes, f, other, v);
        assert(b2[f].vars.drop_last() =~= scopes[f].vars);
        assert(find_var(b2[f].vars, name) == find_var(scopes[f].vars, name));
        assert(forall|j: int| 0 <= j < f ==> b2[j] == scopes[j]);
        lemma_lookup_below(scopes, b2, f, name);
    }
}

/// Looking up from a scope depends only on that scope and the ones before it.
proof fn lemma_lookup_below(a: Seq<SpecScope>, b: Seq<SpecScope>, f: int, name: Seq<char>)
    requires
        0 <= f < a.len(),
        f < b.len(),
        forall|j: int| 0 <= j < f ==> b[j] == a[j],
        b[f].outer == a[f].outer,
        find_var(b[f].vars, name) == find_var(a[f].vars, name),
    ensures
        lookup(b, f, name) == lookup(a, f, name),
{
    match a[f].outer {
        Some(o) => {
            if 0 <= o < f && find_var(a[f].vars, name) is None {
                lemma_lookup_prefix(a, b, o, f, name);
            }
        },
        None => {},
    }
}

proof fn lemma_lookup_prefix(a: Seq<SpecScope>, b: Seq<SpecScope>, g: int, f: int, name: Seq<char>)
    requires
        0 <= g < f,
        f <= a.len(),
        f <= b.len(),
        forall|j: int| 0 <= j < f ==> b[j] == a[j],
    ensures
        lookup(b, g, name) == lookup(a, g, name),
    decreases g,
{
    match a[g].outer {
        Some(o) => {
            if 0 <= o < g {
                lemma_lookup_prefix(a, b, o, f, name);
            }
        },
        None => {},
    }
}

} // verus!
