//! Conversion to negation normal form keeps the meaning of a formula.

use crate::model::{FormulaModel, VarId};
use crate::nnf::{bind, join, nnf, nnfs, RawModel};
use crate::semantics::{
    assigned, satisfies, satisfies_exists, satisfies_forall, values, Structure,
};
use vstd::prelude::*;

verus! {

/// The assignment `env` with `ds` for the variables `vars`; of two entries for one variable the
/// later one counts.
pub open spec fn assigned_all<D>(
    env: spec_fn(VarId) -> D,
    vars: Seq<VarId>,
    ds: Seq<D>,
) -> spec_fn(VarId) -> D
    decreases vars.len(),
{
    if vars.len() == 0 {
        env
    } else {
        assigned_all(assigned(env, vars[0], ds[0]), vars.skip(1), ds.skip(1))
    }
}

/// Whether a formula as written holds in a structure under an assignment.
pub open spec fn raw_satisfies<D>(s: Structure<D>, env: spec_fn(VarId) -> D, f: RawModel) -> bool
    decreases f,
{
    match f {
        RawModel::Pred { name, args } => (s.rel)(name, values(s, env, args)),
        RawModel::Not(inner) => !raw_satisfies(s, env, *inner),
        RawModel::And(items) => forall|i: int|
            0 <= i < items.len() ==> raw_satisfies(s, env, #[trigger] items[i]),
        RawModel::Or(items) => exists|i: int|
            0 <= i < items.len() && raw_satisfies(s, env, #[trigger] items[i]),
        RawModel::Implies(l, r) => raw_satisfies(s, env, *l) ==> raw_satisfies(s, env, *r),
        RawModel::ForAll(vars, body) => forall|ds: Seq<D>|
            ds.len() == vars.len() && s.covers(ds) ==> raw_satisfies(
                s,
                #[trigger] assigned_all(env, vars, ds),
                *body,
            ),
        RawModel::Exists(vars, body) => exists|ds: Seq<D>|
            ds.len() == vars.len() && s.covers(ds) && raw_satisfies(
                s,
                #[trigger] assigned_all(env, vars, ds),
                *body,
            ),
        RawModel::True => true,
        RawModel::False => false,
    }
}

/// A nested conjunction holds if all its parts do, and a nested disjunction if one of them does.
proof fn join_satisfied<D>(
    s: Structure<D>,
    env: spec_fn(VarId) -> D,
    parts: Seq<FormulaModel>,
    conj: bool,
)
    ensures
        conj ==> satisfies(s, env, join(parts, conj)) == (forall|i: int|
            0 <= i < parts.len() ==> satisfies(s, env, #[trigger] parts[i])),
        !conj ==> satisfies(s, env, join(parts, conj)) == (exists|i: int|
            0 <= i < parts.len() && satisfies(s, env, #[trigger] parts[i])),
    decreases parts.len(),
{
    if parts.len() > 1 {
        let rest = parts.skip(1);
        join_satisfied(s, env, rest, conj);
        assert forall|i: int| 1 <= i < parts.len() implies #[trigger] parts[i] == rest[i - 1] by {}
        assert forall|i: int| 0 <= i < rest.len() implies #[trigger] rest[i] == parts[i + 1] by {}
    } else if parts.len() == 1 {
        assert(parts[0] == join(parts, conj));
    }
}

/// A list of quantifiers ranges over all lists of elements for its variables.
proof fn bind_satisfied<D>(
    s: Structure<D>,
    env: spec_fn(VarId) -> D,
    vars: Seq<VarId>,
    body: FormulaModel,
    universal: bool,
)
    ensures
        universal ==> satisfies(s, env, bind(vars, body, universal)) == (forall|ds: Seq<D>|
            ds.len() == vars.len() && s.covers(ds) ==> satisfies(
                s,
                #[trigger] assigned_all(env, vars, ds),
                body,
            )),
        !universal ==> satisfies(s, env, bind(vars, body, universal)) == (exists|ds: Seq<D>|
            ds.len() == vars.len() && s.covers(ds) && satisfies(
                s,
                #[trigger] assigned_all(env, vars, ds),
                body,
            )),
    decreases vars.len(),
{
    if vars.len() == 0 {
        let none = Seq::<D>::empty();
        assert(assigned_all(env, vars, none) == env);
        assert forall|ds: Seq<D>| ds.len() == 0 implies #[trigger] assigned_all(env, vars, ds)
            == env by {}
    } else {
        let v = vars[0];
        let rest = vars.skip(1);
        let inner = bind(rest, body, universal);
        satisfies_forall(s, env, v, inner);
        satisfies_exists(s, env, v, inner);
        assert forall|d: D, tail: Seq<D>|
            #![trigger assigned_all(assigned(env, v, d), rest, tail)]
            assigned_all(assigned(env, v, d), rest, tail) == assigned_all(
                env,
                vars,
                seq![d] + tail,
            ) by {
            assert((seq![d] + tail).skip(1) =~= tail);
        }
        if universal {
            if satisfies(s, env, bind(vars, body, universal)) {
                assert forall|ds: Seq<D>| ds.len() == vars.len() && s.covers(ds) implies satisfies(
                    s,
                    #[trigger] assigned_all(env, vars, ds),
                    body,
                ) by {
                    bind_satisfied(s, assigned(env, v, ds[0]), rest, body, universal);
                    assert(satisfies(s, assigned(env, v, ds[0]), inner));
                    assert(ds.skip(1).len() == rest.len());
                    assert(s.covers(ds.skip(1)));
                    assert(assigned_all(env, vars, ds) == assigned_all(
                        assigned(env, v, ds[0]),
                        rest,
                        ds.skip(1),
                    ));
                }
            }
            if forall|ds: Seq<D>|
                ds.len() == vars.len() && s.covers(ds) ==> satisfies(
                    s,
                    #[trigger] assigned_all(env, vars, ds),
                    body,
                ) {
                assert forall|d: D| s.dom.contains(d) implies satisfies(
                    s,
                    #[trigger] assigned(env, v, d),
                    inner,
                ) by {
                    bind_satisfied(s, assigned(env, v, d), rest, body, universal);
                    assert forall|tail: Seq<D>| tail.len() == rest.len() && s.covers(
                        tail,
                    ) implies satisfies(
                        s,
                        #[trigger] assigned_all(assigned(env, v, d), rest, tail),
                        body,
                    ) by {
                        assert((seq![d] + tail).len() == vars.len());
                    }
                }
            }
        } else {
            if satisfies(s, env, bind(vars, body, universal)) {
                let d = choose|d: D|
                    s.dom.contains(d) && satisfies(s, #[trigger] assigned(env, v, d), inner);
                bind_satisfied(s, assigned(env, v, d), rest, body, universal);
                let tail = choose|tail: Seq<D>|
                    tail.len() == rest.len() && s.covers(tail) && satisfies(
                        s,
                        #[trigger] assigned_all(assigned(env, v, d), rest, tail),
                        body,
                    );
                assert((seq![d] + tail).len() == vars.len());
            }
            if exists|ds: Seq<D>|
                ds.len() == vars.len() && s.covers(ds) && satisfies(
                    s,
                    #[trigger] assigned_all(env, vars, ds),
                    body,
                ) {
                let ds = choose|ds: Seq<D>|
                    ds.len() == vars.len() && s.covers(ds) && satisfies(
                        s,
                        #[trigger] assigned_all(env, vars, ds),
                        body,
                    );
                bind_satisfied(s, assigned(env, v, ds[0]), rest, body, universal);
                assert(ds.skip(1).len() == rest.len());
                assert(s.covers(ds.skip(1)));
                assert(assigned_all(env, vars, ds) == assigned_all(
                    assigned(env, v, ds[0]),
                    rest,
                    ds.skip(1),
                ));
                assert(satisfies(s, assigned(env, v, ds[0]), inner));
            }
        }
    }
}

/// The negation normal form of a formula holds exactly where the formula holds, and that of its
/// negation exactly where it does not.
pub proof fn nnf_keeps_meaning<D>(
    s: Structure<D>,
    env: spec_fn(VarId) -> D,
    f: RawModel,
    polarity: bool,
)
    ensures
        satisfies(s, env, nnf(f, polarity)) == (raw_satisfies(s, env, f) == polarity),
    decreases f,
{
    match f {
        RawModel::Pred { .. } => {},
        RawModel::Not(inner) => {
            nnf_keeps_meaning(s, env, *inner, !polarity);
        },
        RawModel::And(items) => {
            let parts = nnfs(items, polarity);
            join_satisfied(s, env, parts, polarity);
            assert forall|i: int| 0 <= i < items.len() implies satisfies(
                s,
                env,
                #[trigger] parts[i],
            ) == (raw_satisfies(s, env, items[i]) == polarity) by {
                nnf_keeps_meaning(s, env, items[i], polarity);
            }
            assert forall|i: int| 0 <= i < items.len() implies raw_satisfies(
                s,
                env,
                #[trigger] items[i],
            ) == (satisfies(s, env, parts[i]) == polarity) by {}
        },
        RawModel::Or(items) => {
            let parts = nnfs(items, polarity);
            join_satisfied(s, env, parts, !polarity);
            assert forall|i: int| 0 <= i < items.len() implies satisfies(
                s,
                env,
                #[trigger] parts[i],
            ) == (raw_satisfies(s, env, items[i]) == polarity) by {
                nnf_keeps_meaning(s, env, items[i], polarity);
            }
            assert forall|i: int| 0 <= i < items.len() implies raw_satisfies(
                s,
                env,
                #[trigger] items[i],
            ) == (satisfies(s, env, parts[i]) == polarity) by {}
        },
        RawModel::Implies(l, r) => {
            nnf_keeps_meaning(s, env, *l, !polarity);
            nnf_keeps_meaning(s, env, *r, polarity);
        },
        RawModel::ForAll(vars, body) => {
            bind_satisfied(s, env, vars, nnf(*body, polarity), polarity);
            assert forall|ds: Seq<D>|
                #![trigger assigned_all(env, vars, ds)]
                satisfies(s, assigned_all(env, vars, ds), nnf(*body, polarity)) == (raw_satisfies(
                    s,
                    assigned_all(env, vars, ds),
                    *body,
                ) == polarity) by {
                nnf_keeps_meaning(s, assigned_all(env, vars, ds), *body, polarity);
            }
        },
        RawModel::Exists(vars, body) => {
            bind_satisfied(s, env, vars, nnf(*body, polarity), !polarity);
            assert forall|ds: Seq<D>|
                #![trigger assigned_all(env, vars, ds)]
                satisfies(s, assigned_all(env, vars, ds), nnf(*body, polarity)) == (raw_satisfies(
                    s,
                    assigned_all(env, vars, ds),
                    *body,
                ) == polarity) by {
                nnf_keeps_meaning(s, assigned_all(env, vars, ds), *body, polarity);
            }
        },
        RawModel::True | RawModel::False => {},
    }
}

} // verus!
