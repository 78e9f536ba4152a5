//! How formulas come out of the conversions: which parts stand where.

use crate::model::{
    height, subst, subst_term, subst_term_func, subst_terms, FormulaModel, TermModel, VarId,
};
use crate::nnf::{bind, join, nnf, nnfs, RawModel};
use crate::skolem_table::{KeyModel, TableModel};
use crate::skolemize::{skolem_term, skolemized, var_terms, witnessed};
use crate::soundness::{minted_under, well_scoped, witnessed_scope};
use vstd::prelude::*;

verus! {

/// The `i`-th of `n` parts that are nested to the right.
pub open spec fn part(f: FormulaModel, i: nat, n: nat) -> FormulaModel
    decreases i,
{
    if i == 0 {
        if n <= 1 {
            f
        } else {
            match f {
                FormulaModel::And(l, _) | FormulaModel::Or(l, _) => *l,
                _ => f,
            }
        }
    } else {
        part(rest_of(f), (i - 1) as nat, (n - 1) as nat)
    }
}

/// What a connective has on its right.
pub open spec fn rest_of(f: FormulaModel) -> FormulaModel {
    match f {
        FormulaModel::And(_, r) | FormulaModel::Or(_, r) => *r,
        _ => f,
    }
}

/// Whether the first `n` connectives, going to the right, are all conjunctions, or all disjunctions.
pub open spec fn connected(f: FormulaModel, n: nat, conj: bool) -> bool
    decreases n,
{
    n == 0 || (f is And == conj && f is Or == !conj && connected(
        rest_of(f),
        (n - 1) as nat,
        conj,
    ))
}

proof fn join_parts(parts: Seq<FormulaModel>, conj: bool, i: nat)
    requires
        i < parts.len(),
    ensures
        part(join(parts, conj), i, parts.len()) == parts[i as int],
        connected(join(parts, conj), (parts.len() - 1) as nat, conj),
    decreases parts.len(),
{
    if parts.len() > 1 {
        let rest = parts.skip(1);
        let j = if i == 0 {
            0
        } else {
            (i - 1) as nat
        };
        join_parts(rest, conj, j);
        if i > 0 {
            assert(rest[i - 1] == parts[i as int]);
        }
    }
}

/// The parts of a conjunction or disjunction come out in order, nested to the right, each converted
/// on its own; under a negation the connectives are exchanged. Without parts, what comes out is a
/// truth value.
pub proof fn junctions_keep_their_parts(items: Seq<RawModel>, polarity: bool, i: nat)
    ensures
        i < items.len() ==> {
            &&& part(nnf(RawModel::And(items), polarity), i, items.len()) == nnf(
                items[i as int],
                polarity,
            )
            &&& part(nnf(RawModel::Or(items), polarity), i, items.len()) == nnf(
                items[i as int],
                polarity,
            )
            &&& connected(nnf(RawModel::And(items), polarity), (items.len() - 1) as nat, polarity)
            &&& connected(nnf(RawModel::Or(items), polarity), (items.len() - 1) as nat, !polarity)
        },
        items.len() == 0 ==> {
            &&& nnf(RawModel::And(items), polarity) == (if polarity {
                FormulaModel::True
            } else {
                FormulaModel::False
            })
            &&& nnf(RawModel::Or(items), polarity) == (if polarity {
                FormulaModel::False
            } else {
                FormulaModel::True
            })
        },
{
    let parts = nnfs(items, polarity);
    if i < items.len() {
        join_parts(parts, polarity, i);
        join_parts(parts, !polarity, i);
    }
}

/// An implication comes out as a disjunction of its negated premise with its conclusion, in this
/// order, and its negation as the conjunction of its premise with its negated conclusion. A negation
/// turns the polarity, and an atom is negated under a negation only.
pub proof fn implications_and_negations(l: RawModel, r: RawModel, polarity: bool)
    ensures
        nnf(RawModel::Implies(Box::new(l), Box::new(r)), true) == FormulaModel::Or(
            Box::new(nnf(l, false)),
            Box::new(nnf(r, true)),
        ),
        nnf(RawModel::Implies(Box::new(l), Box::new(r)), false) == FormulaModel::And(
            Box::new(nnf(l, true)),
            Box::new(nnf(r, false)),
        ),
        nnf(RawModel::Not(Box::new(l)), polarity) == nnf(l, !polarity),
        l is Pred ==> nnf(l, polarity) == (FormulaModel::Pred {
            name: l->Pred_name,
            args: l->Pred_args,
            negated: !polarity,
        }),
{
}

/// What is left of a formula inside its first `n` quantifiers.
pub open spec fn inside(f: FormulaModel, n: nat) -> FormulaModel
    decreases n,
{
    if n == 0 {
        f
    } else {
        match f {
            FormulaModel::ForAll(_, body) | FormulaModel::Exists(_, body) => inside(
                *body,
                (n - 1) as nat,
            ),
            _ => f,
        }
    }
}

proof fn bind_prefix(vars: Seq<VarId>, body: FormulaModel, universal: bool, i: nat)
    requires
        i <= vars.len(),
    ensures
        i == vars.len() ==> inside(bind(vars, body, universal), i) == body,
        i < vars.len() ==> (match inside(bind(vars, body, universal), i) {
            FormulaModel::ForAll(v, _) => universal && v == vars[i as int],
            FormulaModel::Exists(v, _) => !universal && v == vars[i as int],
            _ => false,
        }),
    decreases vars.len(),
{
    if vars.len() > 0 && i > 0 {
        bind_prefix(vars.skip(1), body, universal, (i - 1) as nat);
        if i < vars.len() {
            assert(vars.skip(1)[i - 1] == vars[i as int]);
        }
    }
}

/// The variables of a quantifier come out in order, the first outermost, around the converted body;
/// under a negation the quantifiers are exchanged.
pub proof fn quantifiers_keep_their_order(
    vars: Seq<VarId>,
    body: RawModel,
    polarity: bool,
    i: nat,
)
    requires
        i <= vars.len(),
    ensures
        ({
            let all = inside(nnf(RawModel::ForAll(vars, Box::new(body)), polarity), i);
            let some = inside(nnf(RawModel::Exists(vars, Box::new(body)), polarity), i);
            &&& i == vars.len() ==> all == nnf(body, polarity) && some == nnf(body, polarity)
            &&& i < vars.len() ==> (match all {
                FormulaModel::ForAll(v, _) => polarity && v == vars[i as int],
                FormulaModel::Exists(v, _) => !polarity && v == vars[i as int],
                _ => false,
            })
            &&& i < vars.len() ==> (match some {
                FormulaModel::ForAll(v, _) => !polarity && v == vars[i as int],
                FormulaModel::Exists(v, _) => polarity && v == vars[i as int],
                _ => false,
            })
        }),
{
    bind_prefix(vars, nnf(body, polarity), polarity, i);
    bind_prefix(vars, nnf(body, polarity), !polarity, i);
    let all = RawModel::ForAll(vars, Box::new(body));
    let some = RawModel::Exists(vars, Box::new(body));
    assert(all->ForAll_0 == vars && some->Exists_0 == vars);
}

/// Whether `g` is `f` without its existential quantifiers, but for the arguments of its predicates.
pub open spec fn same_shape(g: FormulaModel, f: FormulaModel) -> bool
    decreases f,
{
    match f {
        FormulaModel::Pred { name, args, negated } => g is Pred && g->name == name && g->negated
            == negated && g->args.len() == args.len(),
        FormulaModel::And(l, r) => g is And && same_shape(*g->And_0, *l) && same_shape(
            *g->And_1,
            *r,
        ),
        FormulaModel::Or(l, r) => g is Or && same_shape(*g->Or_0, *l) && same_shape(*g->Or_1, *r),
        FormulaModel::ForAll(v, body) => g is ForAll && g->ForAll_0 == v && same_shape(
            *g->ForAll_1,
            *body,
        ),
        FormulaModel::Exists(_, body) => same_shape(g, *body),
        FormulaModel::True => g is True,
        FormulaModel::False => g is False,
    }
}

proof fn subst_same_shape(g: FormulaModel, f: FormulaModel, v: VarId, rep: TermModel)
    requires
        same_shape(g, subst(f, v, rep)),
    ensures
        same_shape(g, f),
    decreases f,
{
    match f {
        FormulaModel::And(l, r) => {
            subst_same_shape(*g->And_0, *l, v, rep);
            subst_same_shape(*g->And_1, *r, v, rep);
        },
        FormulaModel::Or(l, r) => {
            subst_same_shape(*g->Or_0, *l, v, rep);
            subst_same_shape(*g->Or_1, *r, v, rep);
        },
        FormulaModel::ForAll(w, body) => {
            if w != v {
                subst_same_shape(*g->ForAll_1, *body, v, rep);
            }
        },
        FormulaModel::Exists(w, body) => {
            if w != v {
                subst_same_shape(g, *body, v, rep);
            }
        },
        _ => {},
    }
}

/// Skolemization takes the existential quantifiers out and leaves everything else in its place:
/// connectives, universal quantifiers, predicates and their negations.
pub proof fn skolemized_has_the_same_shape(f: FormulaModel, deps: Seq<VarId>, t: TableModel)
    ensures
        same_shape(skolemized(f, deps, t).0, f),
    decreases height(f),
{
    match f {
        FormulaModel::And(l, r) | FormulaModel::Or(l, r) => {
            skolemized_has_the_same_shape(*l, deps, t);
            skolemized_has_the_same_shape(*r, deps, skolemized(*l, deps, t).1);
        },
        FormulaModel::ForAll(v, body) => {
            skolemized_has_the_same_shape(*body, deps.push(v), t);
        },
        FormulaModel::Exists(v, body) => {
            let key = KeyModel { body: *body, deps };
            let rep = skolem_term(t.entry_for(key).symbol, deps);
            witnessed_scope(v, *body, deps, t);
            skolemized_has_the_same_shape(witnessed(v, *body, deps, t), deps, t.looked_up(key));
            subst_same_shape(skolemized(f, deps, t).0, *body, v, rep);
        },
        _ => {},
    }
}

/// Whether each Skolem symbol in a term is applied to the first of the variables `deps`, in order.
pub open spec fn applied_in_order(t: TermModel, deps: Seq<VarId>, prefix: Seq<char>) -> bool
    decreases t,
{
    match t {
        TermModel::Var(_) => true,
        TermModel::Func(name, args) => {
            &&& minted_under(prefix, name) ==> exists|k: int|
                0 <= k <= deps.len() && args == Seq::new(
                    k as nat,
                    |i: int| TermModel::Var((#[trigger] deps.take(k))[i]),
                )
            &&& all_applied_in_order(args, deps, prefix)
        },
    }
}

/// The same of several terms.
pub open spec fn all_applied_in_order(
    args: Seq<TermModel>,
    deps: Seq<VarId>,
    prefix: Seq<char>,
) -> bool
    decreases args,
{
    forall|i: int| 0 <= i < args.len() ==> applied_in_order(#[trigger] args[i], deps, prefix)
}

/// Whether each Skolem symbol in a formula is applied to the first of the universal variables around
/// it, in the order in which they are bound.
pub open spec fn skolem_terms_in_order(
    f: FormulaModel,
    deps: Seq<VarId>,
    prefix: Seq<char>,
) -> bool
    decreases f,
{
    match f {
        FormulaModel::Pred { name, args, negated } => all_applied_in_order(args, deps, prefix),
        FormulaModel::And(l, r) | FormulaModel::Or(l, r) => skolem_terms_in_order(*l, deps, prefix)
            && skolem_terms_in_order(*r, deps, prefix),
        FormulaModel::ForAll(v, body) => skolem_terms_in_order(*body, deps.push(v), prefix),
        FormulaModel::Exists(_, body) => skolem_terms_in_order(*body, deps, prefix),
        FormulaModel::True | FormulaModel::False => true,
    }
}

proof fn subst_term_in_order(
    t: TermModel,
    v: VarId,
    rep: TermModel,
    deps: Seq<VarId>,
    prefix: Seq<char>,
)
    requires
        applied_in_order(t, deps, prefix),
        applied_in_order(rep, deps, prefix),
        !deps.contains(v),
    ensures
        applied_in_order(subst_term(t, v, rep), deps, prefix),
    decreases t,
{
    if let TermModel::Func(name, args) = t {
        subst_term_func(name, args, v, rep);
        subst_terms_in_order(args, v, rep, deps, prefix);
        if minted_under(prefix, name) {
            let k = choose|k: int|
                0 <= k <= deps.len() && args == Seq::new(
                    k as nat,
                    |i: int| TermModel::Var((#[trigger] deps.take(k))[i]),
                );
            let want = Seq::new(k as nat, |i: int| TermModel::Var((#[trigger] deps.take(k))[i]));
            assert forall|i: int| 0 <= i < args.len() implies #[trigger] subst_terms(
                args,
                v,
                rep,
            )[i] == want[i] by {
                assert(args[i] == TermModel::Var(deps.take(k)[i]));
                assert(deps.contains(deps[i]));
            }
            assert(subst_terms(args, v, rep) =~= want);
        }
    }
}

proof fn subst_terms_in_order(
    args: Seq<TermModel>,
    v: VarId,
    rep: TermModel,
    deps: Seq<VarId>,
    prefix: Seq<char>,
)
    requires
        all_applied_in_order(args, deps, prefix),
        applied_in_order(rep, deps, prefix),
        !deps.contains(v),
    ensures
        all_applied_in_order(subst_terms(args, v, rep), deps, prefix),
    decreases args,
{
    assert forall|i: int| 0 <= i < args.len() implies applied_in_order(
        #[trigger] subst_terms(args, v, rep)[i],
        deps,
        prefix,
    ) by {
        assert(applied_in_order(args[i], deps, prefix));
        subst_term_in_order(args[i], v, rep, deps, prefix);
    }
}

proof fn skolem_term_in_order(name: Seq<char>, d: Seq<VarId>, deps: Seq<VarId>, prefix: Seq<char>)
    requires
        d.len() <= deps.len(),
        d == deps.take(d.len() as int),
    ensures
        applied_in_order(skolem_term(name, d), deps, prefix),
{
    let args = var_terms(d);
    let k = d.len() as int;
    assert(args =~= Seq::new(k as nat, |i: int| TermModel::Var((#[trigger] deps.take(k))[i])));
    assert forall|i: int| 0 <= i < args.len() implies applied_in_order(
        #[trigger] args[i],
        deps,
        prefix,
    ) by {}
}

proof fn subst_in_order(
    f: FormulaModel,
    v: VarId,
    name: Seq<char>,
    d: Seq<VarId>,
    deps: Seq<VarId>,
    prefix: Seq<char>,
)
    requires
        skolem_terms_in_order(f, deps, prefix),
        d.len() <= deps.len(),
        d == deps.take(d.len() as int),
        !deps.contains(v),
    ensures
        skolem_terms_in_order(subst(f, v, skolem_term(name, d)), deps, prefix),
    decreases f,
{
    let rep = skolem_term(name, d);
    match f {
        FormulaModel::Pred { name: _, args, negated } => {
            skolem_term_in_order(name, d, deps, prefix);
            subst_terms_in_order(args, v, rep, deps, prefix);
        },
        FormulaModel::And(l, r) | FormulaModel::Or(l, r) => {
            subst_in_order(*l, v, name, d, deps, prefix);
            subst_in_order(*r, v, name, d, deps, prefix);
        },
        FormulaModel::ForAll(w, body) => {
            if w != v {
                let inner = deps.push(w);
                assert(inner.take(d.len() as int) =~= deps.take(d.len() as int));
                assert(!inner.contains(v)) by {
                    if inner.contains(v) {
                        let i = choose|i: int| 0 <= i < inner.len() && inner[i] == v;
                        assert(deps[i] == v);
                    }
                }
                subst_in_order(*body, v, name, d, inner, prefix);
            }
        },
        FormulaModel::Exists(w, body) => {
            if w != v {
                subst_in_order(*body, v, name, d, deps, prefix);
            }
        },
        _ => {},
    }
}

/// Skolem symbols are applied to the universal variables around their existentials, from the
/// outermost on and in the order in which they are bound.
pub proof fn witnesses_take_the_universals_in_order(
    f: FormulaModel,
    deps: Seq<VarId>,
    t: TableModel,
    prefix: Seq<char>,
)
    requires
        well_scoped(f, deps),
        skolem_terms_in_order(f, deps, prefix),
    ensures
        skolem_terms_in_order(skolemized(f, deps, t).0, deps, prefix),
    decreases height(f),
{
    match f {
        FormulaModel::And(l, r) | FormulaModel::Or(l, r) => {
            witnesses_take_the_universals_in_order(*l, deps, t, prefix);
            witnesses_take_the_universals_in_order(*r, deps, skolemized(*l, deps, t).1, prefix);
        },
        FormulaModel::ForAll(v, body) => {
            witnesses_take_the_universals_in_order(*body, deps.push(v), t, prefix);
        },
        FormulaModel::Exists(v, body) => {
            let key = KeyModel { body: *body, deps };
            let sym = t.entry_for(key).symbol;
            witnessed_scope(v, *body, deps, t);
            assert(deps == deps.take(deps.len() as int)) by {
                assert(deps =~= deps.take(deps.len() as int));
            }
            subst_in_order(*body, v, sym, deps, deps, prefix);
            witnesses_take_the_universals_in_order(
                witnessed(v, *body, deps, t),
                deps,
                t.looked_up(key),
                prefix,
            );
        },
        _ => {},
    }
}

} // verus!
