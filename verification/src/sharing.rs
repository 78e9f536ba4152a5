//! What an interner knows after the work that goes through it.

use crate::model::{height, subst, FormulaModel, TermModel, VarId};
use crate::nnf::{
    bind, bind_interned, join, join_interned, nnf, nnf_interned, nnfs, nnfs_interned, RawModel,
};
use crate::skolem_table::{KeyModel, TableModel};
use crate::skolemize::{skolem_interned, skolem_term, skolemized, witnessed};
use crate::soundness::witnessed_scope;
use crate::term::{subst_interned, InternerModel};
use vstd::prelude::*;

verus! {

proof fn join_known(m: InternerModel, parts: Seq<FormulaModel>, conj: bool)
    requires
        parts.len() == 1 ==> m.known.contains(parts[0]),
    ensures
        m.known.subset_of(join_interned(m, parts, conj).known),
        join_interned(m, parts, conj).known.contains(join(parts, conj)),
    decreases parts.len(),
{
    if parts.len() > 1 {
        let rest = parts.skip(1);
        if rest.len() > 1 {
            join_known(m, rest, conj);
        } else {
            assert(join_interned(m, rest, conj) == m);
        }
    }
}

proof fn bind_known(m: InternerModel, vars: Seq<VarId>, body: FormulaModel, universal: bool)
    requires
        m.known.contains(body),
    ensures
        m.known.subset_of(bind_interned(m, vars, body, universal).known),
        bind_interned(m, vars, body, universal).known.contains(bind(vars, body, universal)),
    decreases vars.len(),
{
    if vars.len() > 0 {
        bind_known(m, vars.skip(1), body, universal);
    }
}

proof fn nnfs_known(m: InternerModel, items: Seq<RawModel>, n: nat, polarity: bool)
    requires
        n <= items.len(),
    ensures
        m.known.subset_of(nnfs_interned(m, items, n, polarity).known),
        forall|i: int|
            0 <= i < n ==> nnfs_interned(m, items, n, polarity).known.contains(
                nnf(#[trigger] items[i], polarity),
            ),
    decreases items, n,
{
    if n > 0 {
        nnfs_known(m, items, (n - 1) as nat, polarity);
        nnf_is_known(
            nnfs_interned(m, items, (n - 1) as nat, polarity),
            items[n - 1],
            polarity,
        );
    }
}

/// Conversion to negation normal form leaves its result known to the interner, beside all that was
/// known before.
pub proof fn nnf_is_known(m: InternerModel, f: RawModel, polarity: bool)
    ensures
        m.known.subset_of(nnf_interned(m, f, polarity).known),
        nnf_interned(m, f, polarity).known.contains(nnf(f, polarity)),
    decreases f, 0nat,
{
    match f {
        RawModel::Pred { .. } | RawModel::True | RawModel::False => {},
        RawModel::Not(inner) => {
            nnf_is_known(m, *inner, !polarity);
        },
        RawModel::And(items) => {
            let parts = nnfs(items, polarity);
            nnfs_known(m, items, items.len(), polarity);
            let mid = nnfs_interned(m, items, items.len(), polarity);
            if parts.len() == 1 {
                assert(parts[0] == nnf(items[0], polarity));
            }
            join_known(mid, parts, polarity);
        },
        RawModel::Or(items) => {
            let parts = nnfs(items, polarity);
            nnfs_known(m, items, items.len(), polarity);
            let mid = nnfs_interned(m, items, items.len(), polarity);
            if parts.len() == 1 {
                assert(parts[0] == nnf(items[0], polarity));
            }
            join_known(mid, parts, !polarity);
        },
        RawModel::Implies(l, r) => {
            nnf_is_known(m, *l, !polarity);
            nnf_is_known(nnf_interned(m, *l, !polarity), *r, polarity);
        },
        RawModel::ForAll(vars, body) => {
            nnf_is_known(m, *body, polarity);
            bind_known(nnf_interned(m, *body, polarity), vars, nnf(*body, polarity), polarity);
        },
        RawModel::Exists(vars, body) => {
            nnf_is_known(m, *body, polarity);
            bind_known(nnf_interned(m, *body, polarity), vars, nnf(*body, polarity), !polarity);
        },
    }
}

/// Substitution leaves its result known to the interner if the formula was, beside all that was
/// known before.
pub proof fn substitution_is_known(m: InternerModel, f: FormulaModel, var: VarId, rep: TermModel)
    ensures
        m.known.subset_of(subst_interned(m, f, var, rep).known),
        m.known.contains(f) ==> subst_interned(m, f, var, rep).known.contains(subst(f, var, rep)),
    decreases f,
{
    match f {
        FormulaModel::And(l, r) | FormulaModel::Or(l, r) => {
            substitution_is_known(m, *l, var, rep);
            substitution_is_known(subst_interned(m, *l, var, rep), *r, var, rep);
        },
        FormulaModel::ForAll(v, body) | FormulaModel::Exists(v, body) => {
            substitution_is_known(m, *body, var, rep);
        },
        _ => {},
    }
}

/// Whether an interner knows a formula and the bodies of its quantifiers and the parts of its
/// connectives.
pub open spec fn knows(m: InternerModel, f: FormulaModel) -> bool
    decreases f,
{
    &&& m.known.contains(f)
    &&& match f {
        FormulaModel::And(l, r) | FormulaModel::Or(l, r) => knows(m, *l) && knows(m, *r),
        FormulaModel::ForAll(_, body) | FormulaModel::Exists(_, body) => knows(m, *body),
        _ => true,
    }
}

proof fn knows_more(m1: InternerModel, m2: InternerModel, f: FormulaModel)
    requires
        m1.known.subset_of(m2.known),
        knows(m1, f),
    ensures
        knows(m2, f),
    decreases f,
{
    match f {
        FormulaModel::And(l, r) | FormulaModel::Or(l, r) => {
            knows_more(m1, m2, *l);
            knows_more(m1, m2, *r);
        },
        FormulaModel::ForAll(_, body) | FormulaModel::Exists(_, body) => {
            knows_more(m1, m2, *body);
        },
        _ => {},
    }
}

proof fn substitution_is_known_through(
    m: InternerModel,
    f: FormulaModel,
    var: VarId,
    rep: TermModel,
)
    requires
        knows(m, f),
    ensures
        knows(subst_interned(m, f, var, rep), subst(f, var, rep)),
    decreases f,
{
    substitution_is_known(m, f, var, rep);
    let end = subst_interned(m, f, var, rep);
    match f {
        FormulaModel::And(l, r) | FormulaModel::Or(l, r) => {
            let mid = subst_interned(m, *l, var, rep);
            let last = subst_interned(mid, *r, var, rep);
            substitution_is_known(m, *l, var, rep);
            substitution_is_known(mid, *r, var, rep);
            substitution_is_known_through(m, *l, var, rep);
            knows_more(m, mid, *r);
            substitution_is_known_through(mid, *r, var, rep);
            knows_more(mid, last, subst(*l, var, rep));
            knows_more(last, end, subst(*l, var, rep));
            knows_more(last, end, subst(*r, var, rep));
        },
        FormulaModel::ForAll(v, body) | FormulaModel::Exists(v, body) => {
            if v != var {
                substitution_is_known_through(m, *body, var, rep);
                knows_more(subst_interned(m, *body, var, rep), end, subst(*body, var, rep));
            }
        },
        _ => {},
    }
}

/// The Skolemization of a formula that an interner knows leaves its result known, beside all that
/// was known before.
pub proof fn skolemization_is_known(
    m: InternerModel,
    f: FormulaModel,
    deps: Seq<VarId>,
    t: TableModel,
)
    requires
        knows(m, f),
    ensures
        m.known.subset_of(skolem_interned(m, f, deps, t).known),
        skolem_interned(m, f, deps, t).known.contains(skolemized(f, deps, t).0),
    decreases height(f),
{
    match f {
        FormulaModel::And(l, r) | FormulaModel::Or(l, r) => {
            let t1 = skolemized(*l, deps, t).1;
            skolemization_is_known(m, *l, deps, t);
            let mid = skolem_interned(m, *l, deps, t);
            knows_more(m, mid, *r);
            skolemization_is_known(mid, *r, deps, t1);
        },
        FormulaModel::ForAll(v, body) => {
            skolemization_is_known(m, *body, deps.push(v), t);
        },
        FormulaModel::Exists(v, body) => {
            let key = KeyModel { body: *body, deps };
            let rep = skolem_term(t.entry_for(key).symbol, deps);
            let mid = subst_interned(m, *body, v, rep);
            witnessed_scope(v, *body, deps, t);
            substitution_is_known(m, *body, v, rep);
            substitution_is_known_through(m, *body, v, rep);
            skolemization_is_known(mid, witnessed(v, *body, deps, t), deps, t.looked_up(key));
        },
        _ => {},
    }
}

} // verus!
