//! What terms and formulas mean in a structure.

use crate::model::{subst, subst_term, subst_term_func, subst_terms, FormulaModel, TermModel, VarId};
use vstd::prelude::*;

verus! {

/// A structure with a domain of elements of `D`: what each function symbol and each predicate
/// symbol stands for at each number of arguments.
#[verifier::reject_recursive_types(D)]
pub struct Structure<D> {
    pub dom: Set<D>,
    pub fun: spec_fn(Seq<char>, Seq<D>) -> D,
    pub rel: spec_fn(Seq<char>, Seq<D>) -> bool,
}

impl<D> Structure<D> {
    /// Whether all the elements are in the domain.
    pub open spec fn covers(self, ds: Seq<D>) -> bool {
        forall|i: int| 0 <= i < ds.len() ==> self.dom.contains(#[trigger] ds[i])
    }

    /// The domain is not empty, and the functions do not lead out of it.
    pub open spec fn valid(self) -> bool {
        &&& exists|d: D| self.dom.contains(d)
        &&& forall|name: Seq<char>, args: Seq<D>|
            self.covers(args) ==> self.dom.contains(#[trigger] (self.fun)(name, args))
    }

    /// Whether an assignment gives every variable an element of the domain.
    pub open spec fn admits(self, env: spec_fn(VarId) -> D) -> bool {
        forall|x: VarId| self.dom.contains(#[trigger] env(x))
    }
}

/// The assignment `env` with `d` for the variable `v`.
pub open spec fn assigned<D>(env: spec_fn(VarId) -> D, v: VarId, d: D) -> spec_fn(VarId) -> D {
    |x: VarId|
        if x == v {
            d
        } else {
            env(x)
        }
}

/// The element that a term denotes.
pub open spec fn value<D>(s: Structure<D>, env: spec_fn(VarId) -> D, t: TermModel) -> D
    decreases t,
{
    match t {
        TermModel::Var(v) => env(v),
        TermModel::Func(name, args) => (s.fun)(name, values(s, env, args)),
    }
}

/// The elements that a list of terms denotes.
pub open spec fn values<D>(s: Structure<D>, env: spec_fn(VarId) -> D, args: Seq<TermModel>) -> Seq<
    D,
>
    decreases args,
{
    Seq::new(
        args.len(),
        |i: int|
            if 0 <= i < args.len() {
                value(s, env, args[i])
            } else {
                arbitrary()
            },
    )
}

/// Whether a formula holds in a structure under an assignment.
pub open spec fn satisfies<D>(s: Structure<D>, env: spec_fn(VarId) -> D, f: FormulaModel) -> bool
    decreases f,
{
    match f {
        FormulaModel::Pred { name, args, negated } => (s.rel)(name, values(s, env, args))
            != negated,
        FormulaModel::And(l, r) => satisfies(s, env, *l) && satisfies(s, env, *r),
        FormulaModel::Or(l, r) => satisfies(s, env, *l) || satisfies(s, env, *r),
        FormulaModel::ForAll(v, body) => forall|d: D|
            s.dom.contains(d) ==> satisfies(s, #[trigger] assigned(env, v, d), *body),
        FormulaModel::Exists(v, body) => exists|d: D|
            s.dom.contains(d) && satisfies(s, #[trigger] assigned(env, v, d), *body),
        FormulaModel::True => true,
        FormulaModel::False => false,
    }
}

/// Whether the variable `x` occurs in a term.
pub open spec fn occurs(x: VarId, t: TermModel) -> bool
    decreases t,
{
    match t {
        TermModel::Var(v) => v == x,
        TermModel::Func(_, args) => occurs_among(x, args),
    }
}

/// Whether the variable `x` occurs in one of the terms.
pub open spec fn occurs_among(x: VarId, args: Seq<TermModel>) -> bool
    decreases args,
{
    exists|i: int| 0 <= i < args.len() && occurs(x, #[trigger] args[i])
}

/// Whether the variable `x` occurs free in a formula.
pub open spec fn free_in(x: VarId, f: FormulaModel) -> bool
    decreases f,
{
    match f {
        FormulaModel::Pred { name, args, negated } => occurs_among(x, args),
        FormulaModel::And(l, r) | FormulaModel::Or(l, r) => free_in(x, *l) || free_in(x, *r),
        FormulaModel::ForAll(v, body) | FormulaModel::Exists(v, body) => x != v && free_in(x, *body),
        FormulaModel::True | FormulaModel::False => false,
    }
}

/// Whether a formula has a quantifier for the variable `x`.
pub open spec fn binds(x: VarId, f: FormulaModel) -> bool
    decreases f,
{
    match f {
        FormulaModel::And(l, r) | FormulaModel::Or(l, r) => binds(x, *l) || binds(x, *r),
        FormulaModel::ForAll(v, body) | FormulaModel::Exists(v, body) => x == v || binds(x, *body),
        _ => false,
    }
}

/// Whether the function symbol `name` occurs in a term.
pub open spec fn applies(name: Seq<char>, t: TermModel) -> bool
    decreases t,
{
    match t {
        TermModel::Var(_) => false,
        TermModel::Func(n, args) => n == name || applies_among(name, args),
    }
}

/// Whether the function symbol `name` occurs in one of the terms.
pub open spec fn applies_among(name: Seq<char>, args: Seq<TermModel>) -> bool
    decreases args,
{
    exists|i: int| 0 <= i < args.len() && applies(name, #[trigger] args[i])
}

/// Whether the function symbol `name` occurs in a formula.
pub open spec fn mentions(name: Seq<char>, f: FormulaModel) -> bool
    decreases f,
{
    match f {
        FormulaModel::Pred { name: _, args, negated } => applies_among(name, args),
        FormulaModel::And(l, r) | FormulaModel::Or(l, r) => mentions(name, *l) || mentions(
            name,
            *r,
        ),
        FormulaModel::ForAll(_, body) | FormulaModel::Exists(_, body) => mentions(name, *body),
        FormulaModel::True | FormulaModel::False => false,
    }
}

/// Whether two structures give the symbol `name` the same meaning.
pub open spec fn agree_on<D>(s1: Structure<D>, s2: Structure<D>, name: Seq<char>) -> bool {
    forall|args: Seq<D>| #[trigger] (s1.fun)(name, args) == (s2.fun)(name, args)
}

/// A term denotes the same element in two structures that agree on its symbols, under two
/// assignments that agree on its variables.
pub proof fn value_depends<D>(
    s1: Structure<D>,
    s2: Structure<D>,
    env1: spec_fn(VarId) -> D,
    env2: spec_fn(VarId) -> D,
    t: TermModel,
)
    requires
        forall|n: Seq<char>| #[trigger] applies(n, t) ==> agree_on(s1, s2, n),
        forall|x: VarId| #[trigger] occurs(x, t) ==> env1(x) == env2(x),
    ensures
        value(s1, env1, t) == value(s2, env2, t),
    decreases t,
{
    match t {
        TermModel::Var(v) => {
            assert(occurs(v, t));
        },
        TermModel::Func(name, args) => {
            assert forall|n: Seq<char>| #[trigger] applies_among(n, args) implies agree_on(
                s1,
                s2,
                n,
            ) by {
                assert(applies(n, t));
            }
            assert forall|x: VarId| #[trigger] occurs_among(x, args) implies env1(x) == env2(x) by {
                assert(occurs(x, t));
            }
            values_depend(s1, s2, env1, env2, args);
            assert(applies(name, t));
            assert((s1.fun)(name, values(s1, env1, args)) == (s2.fun)(
                name,
                values(s1, env1, args),
            ));
        },
    }
}

/// The same of a list of terms.
pub proof fn values_depend<D>(
    s1: Structure<D>,
    s2: Structure<D>,
    env1: spec_fn(VarId) -> D,
    env2: spec_fn(VarId) -> D,
    args: Seq<TermModel>,
)
    requires
        forall|n: Seq<char>| #[trigger] applies_among(n, args) ==> agree_on(s1, s2, n),
        forall|x: VarId| #[trigger] occurs_among(x, args) ==> env1(x) == env2(x),
    ensures
        values(s1, env1, args) == values(s2, env2, args),
    decreases args,
{
    assert forall|i: int| 0 <= i < args.len() implies value(s1, env1, #[trigger] args[i]) == value(
        s2,
        env2,
        args[i],
    ) by {
        assert forall|n: Seq<char>| #[trigger] applies(n, args[i]) implies agree_on(s1, s2, n) by {
            assert(applies_among(n, args));
        }
        assert forall|x: VarId| #[trigger] occurs(x, args[i]) implies env1(x) == env2(x) by {
            assert(occurs_among(x, args));
        }
        value_depends(s1, s2, env1, env2, args[i]);
    }
    assert(values(s1, env1, args) =~= values(s2, env2, args));
}

/// Whether a formula holds depends only on the symbols in it and on its free variables.
pub proof fn satisfies_depends<D>(
    s1: Structure<D>,
    s2: Structure<D>,
    env1: spec_fn(VarId) -> D,
    env2: spec_fn(VarId) -> D,
    f: FormulaModel,
)
    requires
        s1.dom == s2.dom,
        s1.rel == s2.rel,
        forall|n: Seq<char>| #[trigger] mentions(n, f) ==> agree_on(s1, s2, n),
        forall|x: VarId| #[trigger] free_in(x, f) ==> env1(x) == env2(x),
    ensures
        satisfies(s1, env1, f) == satisfies(s2, env2, f),
    decreases f,
{
    match f {
        FormulaModel::Pred { name, args, negated } => {
            assert forall|n: Seq<char>| #[trigger] applies_among(n, args) implies agree_on(
                s1,
                s2,
                n,
            ) by {
                assert(mentions(n, f));
            }
            assert forall|x: VarId| #[trigger] occurs_among(x, args) implies env1(x) == env2(x) by {
                assert(free_in(x, f));
            }
            values_depend(s1, s2, env1, env2, args);
        },
        FormulaModel::And(l, r) | FormulaModel::Or(l, r) => {
            assert forall|n: Seq<char>|
                #![trigger mentions(n, *l)]
                #![trigger mentions(n, *r)]
                mentions(n, *l) || mentions(n, *r) implies agree_on(s1, s2, n) by {
                assert(mentions(n, f));
            }
            assert forall|x: VarId|
                #![trigger free_in(x, *l)]
                #![trigger free_in(x, *r)]
                free_in(x, *l) || free_in(x, *r) implies env1(x) == env2(x) by {
                assert(free_in(x, f));
            }
            satisfies_depends(s1, s2, env1, env2, *l);
            satisfies_depends(s1, s2, env1, env2, *r);
        },
        FormulaModel::ForAll(v, body) | FormulaModel::Exists(v, body) => {
            assert forall|d: D|
                #![trigger assigned(env1, v, d)]
                #![trigger assigned(env2, v, d)]
                satisfies(s1, assigned(env1, v, d), *body) == satisfies(
                    s2,
                    assigned(env2, v, d),
                    *body,
                ) by {
                let e1 = assigned(env1, v, d);
                let e2 = assigned(env2, v, d);
                assert forall|n: Seq<char>| #[trigger] mentions(n, *body) implies agree_on(
                    s1,
                    s2,
                    n,
                ) by {
                    assert(mentions(n, f));
                }
                assert forall|x: VarId| #[trigger] free_in(x, *body) implies e1(x) == e2(x) by {
                    if x != v {
                        assert(free_in(x, f));
                    }
                }
                satisfies_depends(s1, s2, e1, e2, *body);
            }
        },
        FormulaModel::True | FormulaModel::False => {},
    }
}

/// Under an assignment into the domain, terms denote elements of the domain.
pub proof fn value_in_domain<D>(s: Structure<D>, env: spec_fn(VarId) -> D, t: TermModel)
    requires
        s.valid(),
        forall|x: VarId| #[trigger] occurs(x, t) ==> s.dom.contains(env(x)),
    ensures
        s.dom.contains(value(s, env, t)),
    decreases t,
{
    match t {
        TermModel::Var(v) => {
            assert(occurs(v, t));
        },
        TermModel::Func(name, args) => {
            assert forall|x: VarId| #[trigger] occurs_among(x, args) implies s.dom.contains(
                env(x),
            ) by {
                assert(occurs(x, t));
            }
            values_in_domain(s, env, args);
        },
    }
}

/// The same of a list of terms.
pub proof fn values_in_domain<D>(s: Structure<D>, env: spec_fn(VarId) -> D, args: Seq<TermModel>)
    requires
        s.valid(),
        forall|x: VarId| #[trigger] occurs_among(x, args) ==> s.dom.contains(env(x)),
    ensures
        s.covers(values(s, env, args)),
    decreases args,
{
    assert forall|i: int| 0 <= i < args.len() implies s.dom.contains(
        #[trigger] values(s, env, args)[i],
    ) by {
        assert forall|x: VarId| #[trigger] occurs(x, args[i]) implies s.dom.contains(env(x)) by {
            assert(occurs_among(x, args));
        }
        value_in_domain(s, env, args[i]);
    }
}

/// A term after a substitution denotes what the term before it denotes with the replaced variable
/// standing for the replacement.
pub proof fn value_subst<D>(
    s: Structure<D>,
    env: spec_fn(VarId) -> D,
    t: TermModel,
    v: VarId,
    rep: TermModel,
)
    ensures
        value(s, env, subst_term(t, v, rep)) == value(s, assigned(env, v, value(s, env, rep)), t),
    decreases t,
{
    if let TermModel::Func(name, args) = t {
        subst_term_func(name, args, v, rep);
        values_subst(s, env, args, v, rep);
    }
}

/// The same of a list of terms.
pub proof fn values_subst<D>(
    s: Structure<D>,
    env: spec_fn(VarId) -> D,
    args: Seq<TermModel>,
    v: VarId,
    rep: TermModel,
)
    ensures
        values(s, env, subst_terms(args, v, rep)) == values(
            s,
            assigned(env, v, value(s, env, rep)),
            args,
        ),
    decreases args,
{
    let e = assigned(env, v, value(s, env, rep));
    assert forall|i: int| 0 <= i < args.len() implies value(
        s,
        env,
        #[trigger] subst_terms(args, v, rep)[i],
    ) == value(s, e, args[i]) by {
        value_subst(s, env, args[i], v, rep);
    }
    assert(values(s, env, subst_terms(args, v, rep)) =~= values(s, e, args));
}

/// A universal formula holds if its body does for every element of the domain.
pub proof fn satisfies_forall<D>(
    s: Structure<D>,
    env: spec_fn(VarId) -> D,
    v: VarId,
    body: FormulaModel,
)
    ensures
        satisfies(s, env, FormulaModel::ForAll(v, Box::new(body))) == (forall|d: D|
            s.dom.contains(d) ==> satisfies(s, #[trigger] assigned(env, v, d), body)),
{
    let f = FormulaModel::ForAll(v, Box::new(body));
    assert(f->ForAll_0 == v);
}

/// An existential formula holds if its body does for some element of the domain.
pub proof fn satisfies_exists<D>(
    s: Structure<D>,
    env: spec_fn(VarId) -> D,
    v: VarId,
    body: FormulaModel,
)
    ensures
        satisfies(s, env, FormulaModel::Exists(v, Box::new(body))) == (exists|d: D|
            s.dom.contains(d) && satisfies(s, #[trigger] assigned(env, v, d), body)),
{
    let f = FormulaModel::Exists(v, Box::new(body));
    assert(f->Exists_0 == v);
}

/// A formula after a substitution holds exactly where the formula before it holds with the
/// replaced variable standing for the replacement, if no quantifier of the formula captures a
/// variable of the replacement.
pub proof fn satisfies_subst<D>(
    s: Structure<D>,
    env: spec_fn(VarId) -> D,
    f: FormulaModel,
    v: VarId,
    rep: TermModel,
)
    requires
        forall|x: VarId| #[trigger] occurs(x, rep) ==> !binds(x, f),
    ensures
        satisfies(s, env, subst(f, v, rep)) == satisfies(
            s,
            assigned(env, v, value(s, env, rep)),
            f,
        ),
    decreases f,
{
    let d0 = value(s, env, rep);
    let e = assigned(env, v, d0);
    match f {
        FormulaModel::Pred { name, args, negated } => {
            values_subst(s, env, args, v, rep);
        },
        FormulaModel::And(l, r) | FormulaModel::Or(l, r) => {
            assert forall|x: VarId| #[trigger] occurs(x, rep) implies !binds(x, *l) && !binds(
                x,
                *r,
            ) by {
                assert(!binds(x, f));
            }
            satisfies_subst(s, env, *l, v, rep);
            satisfies_subst(s, env, *r, v, rep);
        },
        FormulaModel::ForAll(w, body) | FormulaModel::Exists(w, body) => {
            if w == v {
                assert(!free_in(v, f));
                satisfies_depends(s, s, env, e, f);
            } else {
                let new = subst(*body, v, rep);
                assert forall|d: D|
                    #![trigger assigned(env, w, d)]
                    #![trigger assigned(e, w, d)]
                    satisfies(s, assigned(env, w, d), new) == satisfies(
                        s,
                        assigned(e, w, d),
                        *body,
                    ) by {
                    let inner = assigned(env, w, d);
                    assert forall|x: VarId| #[trigger] occurs(x, rep) implies !binds(
                        x,
                        *body,
                    ) && x != w by {
                        assert(!binds(x, f));
                    }
                    satisfies_subst(s, inner, *body, v, rep);
                    value_depends(s, s, env, inner, rep);
                    satisfies_depends(s, s, assigned(inner, v, d0), assigned(e, w, d), *body);
                }
                satisfies_forall(s, env, w, new);
                satisfies_exists(s, env, w, new);
                if f is ForAll {
                    assert(subst(f, v, rep) == FormulaModel::ForAll(w, Box::new(new)));
                } else {
                    assert(subst(f, v, rep) == FormulaModel::Exists(w, Box::new(new)));
                }
            }
        },
        FormulaModel::True | FormulaModel::False => {},
    }
}

} // verus!
