//! Skolemization keeps satisfiability, across all the formulas of a session.

use crate::model::{
    height, subst, subst_height, subst_term, subst_term_func, subst_terms, FormulaModel, TermModel,
    VarId,
};
use crate::semantics::{
    agree_on, applies, applies_among, assigned, binds, free_in, mentions, occurs, occurs_among,
    satisfies, satisfies_depends, satisfies_exists, satisfies_forall, satisfies_subst, value,
    value_in_domain, values, Structure,
};
use crate::skolem_table::{symbol, symbol_injective, KeyModel, TableModel};
use crate::skolemize::{skolem_term, skolemized, var_terms, witnessed};
use vstd::prelude::*;

verus! {

/// Whether a formula has no existential quantifier.
pub open spec fn existential_free(f: FormulaModel) -> bool
    decreases f,
{
    match f {
        FormulaModel::And(l, r) | FormulaModel::Or(l, r) => existential_free(*l)
            && existential_free(*r),
        FormulaModel::ForAll(_, body) => existential_free(*body),
        FormulaModel::Exists(_, _) => false,
        _ => true,
    }
}

/// Whether no quantifier of a formula that stands under the universal variables `deps` binds a
/// variable again that is universally bound around it.
pub open spec fn well_scoped(f: FormulaModel, deps: Seq<VarId>) -> bool
    decreases f,
{
    match f {
        FormulaModel::And(l, r) | FormulaModel::Or(l, r) => well_scoped(*l, deps) && well_scoped(
            *r,
            deps,
        ),
        FormulaModel::ForAll(v, body) => !deps.contains(v) && well_scoped(*body, deps.push(v)),
        FormulaModel::Exists(v, body) => !deps.contains(v) && well_scoped(*body, deps),
        _ => true,
    }
}

/// Whether the free variables of a formula are among `deps`.
pub open spec fn closed_under(f: FormulaModel, deps: Seq<VarId>) -> bool {
    forall|x: VarId| #[trigger] free_in(x, f) ==> deps.contains(x)
}

/// Substitution changes no quantifier.
proof fn subst_well_scoped(f: FormulaModel, v: VarId, rep: TermModel, deps: Seq<VarId>)
    ensures
        well_scoped(subst(f, v, rep), deps) == well_scoped(f, deps),
    decreases f,
{
    match f {
        FormulaModel::And(l, r) | FormulaModel::Or(l, r) => {
            subst_well_scoped(*l, v, rep, deps);
            subst_well_scoped(*r, v, rep, deps);
        },
        FormulaModel::ForAll(w, body) => {
            subst_well_scoped(*body, v, rep, deps.push(w));
        },
        FormulaModel::Exists(w, body) => {
            subst_well_scoped(*body, v, rep, deps);
        },
        _ => {},
    }
}

/// A well-scoped formula does not bind the variables it stands under.
proof fn well_scoped_binds(f: FormulaModel, deps: Seq<VarId>, x: VarId)
    requires
        well_scoped(f, deps),
        deps.contains(x),
    ensures
        !binds(x, f),
    decreases f,
{
    match f {
        FormulaModel::And(l, r) | FormulaModel::Or(l, r) => {
            well_scoped_binds(*l, deps, x);
            well_scoped_binds(*r, deps, x);
        },
        FormulaModel::ForAll(w, body) => {
            let i = choose|i: int| 0 <= i < deps.len() && deps[i] == x;
            assert(deps.push(w)[i] == x);
            well_scoped_binds(*body, deps.push(w), x);
        },
        FormulaModel::Exists(w, body) => {
            well_scoped_binds(*body, deps, x);
        },
        _ => {},
    }
}

proof fn occurs_subst(x: VarId, t: TermModel, v: VarId, rep: TermModel)
    requires
        occurs(x, subst_term(t, v, rep)),
    ensures
        (occurs(x, t) && x != v) || occurs(x, rep),
    decreases t,
{
    if let TermModel::Func(name, args) = t {
        subst_term_func(name, args, v, rep);
        occurs_among_subst(x, args, v, rep);
    }
}

proof fn occurs_among_subst(x: VarId, args: Seq<TermModel>, v: VarId, rep: TermModel)
    requires
        occurs_among(x, subst_terms(args, v, rep)),
    ensures
        (occurs_among(x, args) && x != v) || occurs(x, rep),
    decreases args,
{
    let new = subst_terms(args, v, rep);
    let i = choose|i: int| 0 <= i < new.len() && occurs(x, #[trigger] new[i]);
    occurs_subst(x, args[i], v, rep);
}

/// The free variables after a substitution: those of the replacement may come in, and the replaced
/// variable goes.
proof fn free_subst(x: VarId, f: FormulaModel, v: VarId, rep: TermModel)
    requires
        free_in(x, subst(f, v, rep)),
    ensures
        (free_in(x, f) && x != v) || occurs(x, rep),
    decreases f,
{
    match f {
        FormulaModel::Pred { name, args, negated } => {
            occurs_among_subst(x, args, v, rep);
        },
        FormulaModel::And(l, r) | FormulaModel::Or(l, r) => {
            if free_in(x, subst(*l, v, rep)) {
                free_subst(x, *l, v, rep);
            } else {
                free_subst(x, *r, v, rep);
            }
        },
        FormulaModel::ForAll(w, body) | FormulaModel::Exists(w, body) => {
            if w != v {
                free_subst(x, *body, v, rep);
            }
        },
        _ => {},
    }
}

proof fn applies_subst(n: Seq<char>, t: TermModel, v: VarId, rep: TermModel)
    requires
        applies(n, subst_term(t, v, rep)),
    ensures
        applies(n, t) || applies(n, rep),
    decreases t,
{
    if let TermModel::Func(name, args) = t {
        subst_term_func(name, args, v, rep);
        if n != name {
            applies_among_subst(n, args, v, rep);
        }
    }
}

proof fn applies_among_subst(n: Seq<char>, args: Seq<TermModel>, v: VarId, rep: TermModel)
    requires
        applies_among(n, subst_terms(args, v, rep)),
    ensures
        applies_among(n, args) || applies(n, rep),
    decreases args,
{
    let new = subst_terms(args, v, rep);
    let i = choose|i: int| 0 <= i < new.len() && applies(n, #[trigger] new[i]);
    applies_subst(n, args[i], v, rep);
}

/// The symbols after a substitution are those of the formula and those of the replacement.
proof fn mentions_subst(n: Seq<char>, f: FormulaModel, v: VarId, rep: TermModel)
    requires
        mentions(n, subst(f, v, rep)),
    ensures
        mentions(n, f) || applies(n, rep),
    decreases f,
{
    match f {
        FormulaModel::Pred { name, args, negated } => {
            applies_among_subst(n, args, v, rep);
        },
        FormulaModel::And(l, r) | FormulaModel::Or(l, r) => {
            if mentions(n, subst(*l, v, rep)) {
                mentions_subst(n, *l, v, rep);
            } else {
                mentions_subst(n, *r, v, rep);
            }
        },
        FormulaModel::ForAll(w, body) | FormulaModel::Exists(w, body) => {
            if w != v {
                mentions_subst(n, *body, v, rep);
            }
        },
        _ => {},
    }
}

/// A Skolem term holds the dependencies and its own symbol, nothing else.
proof fn skolem_term_parts(name: Seq<char>, deps: Seq<VarId>)
    ensures
        forall|x: VarId| #[trigger] occurs(x, skolem_term(name, deps)) ==> deps.contains(x),
        forall|n: Seq<char>| #[trigger] applies(n, skolem_term(name, deps)) ==> n == name,
{
    let args = var_terms(deps);
    assert forall|x: VarId| #[trigger] occurs(x, skolem_term(name, deps)) implies deps.contains(
        x,
    ) by {
        assert(occurs_among(x, args));
        let i = choose|i: int| 0 <= i < args.len() && occurs(x, #[trigger] args[i]);
        assert(deps[i] == x);
    }
    assert forall|n: Seq<char>| #[trigger] applies(n, skolem_term(name, deps)) implies n == name by {
        if n != name {
            assert(applies_among(n, args));
            let i = choose|i: int| 0 <= i < args.len() && applies(n, #[trigger] args[i]);
            assert(args[i] == TermModel::Var(deps[i]));
        }
    }
}

/// Skolemization removes every existential quantifier.
pub proof fn skolemized_is_existential_free(f: FormulaModel, deps: Seq<VarId>, t: TableModel)
    ensures
        existential_free(skolemized(f, deps, t).0),
    decreases height(f),
{
    match f {
        FormulaModel::And(l, r) | FormulaModel::Or(l, r) => {
            skolemized_is_existential_free(*l, deps, t);
            skolemized_is_existential_free(*r, deps, skolemized(*l, deps, t).1);
        },
        FormulaModel::ForAll(v, body) => {
            skolemized_is_existential_free(*body, deps.push(v), t);
        },
        FormulaModel::Exists(v, body) => {
            let key = KeyModel { body: *body, deps };
            subst_height(*body, v, skolem_term(t.entry_for(key).symbol, deps));
            skolemized_is_existential_free(
                witnessed(v, *body, deps, t),
                deps,
                t.looked_up(key),
            );
        },
        _ => {},
    }
}

/// The body of an existential stays closed and well scoped when its witness is put in.
pub proof fn witnessed_scope(v: VarId, body: FormulaModel, deps: Seq<VarId>, t: TableModel)
    ensures
        closed_under(FormulaModel::Exists(v, Box::new(body)), deps) ==> closed_under(
            witnessed(v, body, deps, t),
            deps,
        ),
        well_scoped(witnessed(v, body, deps, t), deps) == well_scoped(body, deps),
        height(witnessed(v, body, deps, t)) == height(body),
{
    let sym = t.entry_for(KeyModel { body, deps }).symbol;
    let rep = skolem_term(sym, deps);
    let f = FormulaModel::Exists(v, Box::new(body));
    let new = witnessed(v, body, deps, t);
    skolem_term_parts(sym, deps);
    subst_height(body, v, rep);
    subst_well_scoped(body, v, rep, deps);
    if closed_under(f, deps) {
        assert forall|x: VarId| #[trigger] free_in(x, new) implies deps.contains(x) by {
            free_subst(x, body, v, rep);
            if !occurs(x, rep) {
                assert(free_in(x, f));
            }
        }
    }
}

/// Skolemization brings in no free variable but those that the formula stands under.
pub proof fn skolemized_brings_no_free_variables(
    f: FormulaModel,
    deps: Seq<VarId>,
    t: TableModel,
    x: VarId,
)
    requires
        free_in(x, skolemized(f, deps, t).0),
    ensures
        free_in(x, f) || deps.contains(x),
    decreases height(f),
{
    match f {
        FormulaModel::And(l, r) | FormulaModel::Or(l, r) => {
            let t1 = skolemized(*l, deps, t).1;
            if free_in(x, skolemized(*l, deps, t).0) {
                skolemized_brings_no_free_variables(*l, deps, t, x);
            } else {
                skolemized_brings_no_free_variables(*r, deps, t1, x);
            }
        },
        FormulaModel::ForAll(v, body) => {
            skolemized_brings_no_free_variables(*body, deps.push(v), t, x);
            if deps.push(v).contains(x) {
                let i = choose|i: int| 0 <= i < deps.push(v).len() && deps.push(v)[i] == x;
                assert(deps[i] == x);
            }
        },
        FormulaModel::Exists(v, body) => {
            let key = KeyModel { body: *body, deps };
            let sym = t.entry_for(key).symbol;
            let mid = witnessed(v, *body, deps, t);
            witnessed_scope(v, *body, deps, t);
            skolemized_brings_no_free_variables(mid, deps, t.looked_up(key), x);
            if free_in(x, mid) {
                free_subst(x, *body, v, skolem_term(sym, deps));
                skolem_term_parts(sym, deps);
            }
        },
        _ => {},
    }
}

/// A closed formula stays closed.
pub proof fn skolemized_is_closed(f: FormulaModel, deps: Seq<VarId>, t: TableModel)
    requires
        closed_under(f, deps),
    ensures
        closed_under(skolemized(f, deps, t).0, deps),
{
    let new = skolemized(f, deps, t).0;
    assert forall|x: VarId| #[trigger] free_in(x, new) implies deps.contains(x) by {
        skolemized_brings_no_free_variables(f, deps, t, x);
    }
}

proof fn occurs_kept(x: VarId, t: TermModel, v: VarId, rep: TermModel)
    requires
        occurs(x, t),
        x != v,
    ensures
        occurs(x, subst_term(t, v, rep)),
    decreases t,
{
    if let TermModel::Func(name, args) = t {
        subst_term_func(name, args, v, rep);
        occurs_among_kept(x, args, v, rep);
    }
}

proof fn occurs_among_kept(x: VarId, args: Seq<TermModel>, v: VarId, rep: TermModel)
    requires
        occurs_among(x, args),
        x != v,
    ensures
        occurs_among(x, subst_terms(args, v, rep)),
    decreases args,
{
    let i = choose|i: int| 0 <= i < args.len() && occurs(x, #[trigger] args[i]);
    occurs_kept(x, args[i], v, rep);
    assert(occurs(x, subst_terms(args, v, rep)[i]));
}

/// Substitution for another variable leaves a free variable free.
proof fn free_kept(x: VarId, f: FormulaModel, v: VarId, rep: TermModel)
    requires
        free_in(x, f),
        x != v,
    ensures
        free_in(x, subst(f, v, rep)),
    decreases f,
{
    match f {
        FormulaModel::Pred { name, args, negated } => {
            occurs_among_kept(x, args, v, rep);
        },
        FormulaModel::And(l, r) | FormulaModel::Or(l, r) => {
            if free_in(x, *l) {
                free_kept(x, *l, v, rep);
            } else {
                free_kept(x, *r, v, rep);
            }
        },
        FormulaModel::ForAll(w, body) | FormulaModel::Exists(w, body) => {
            if w != v {
                free_kept(x, *body, v, rep);
            }
        },
        _ => {},
    }
}

/// Skolemization loses no free variable.
pub proof fn skolemized_keeps_free_variables(
    f: FormulaModel,
    deps: Seq<VarId>,
    t: TableModel,
    x: VarId,
)
    requires
        free_in(x, f),
    ensures
        free_in(x, skolemized(f, deps, t).0),
    decreases height(f),
{
    match f {
        FormulaModel::And(l, r) | FormulaModel::Or(l, r) => {
            if free_in(x, *l) {
                skolemized_keeps_free_variables(*l, deps, t, x);
            } else {
                skolemized_keeps_free_variables(*r, deps, skolemized(*l, deps, t).1, x);
            }
        },
        FormulaModel::ForAll(v, body) => {
            skolemized_keeps_free_variables(*body, deps.push(v), t, x);
        },
        FormulaModel::Exists(v, body) => {
            let key = KeyModel { body: *body, deps };
            witnessed_scope(v, *body, deps, t);
            free_kept(x, *body, v, skolem_term(t.entry_for(key).symbol, deps));
            skolemized_keeps_free_variables(
                witnessed(v, *body, deps, t),
                deps,
                t.looked_up(key),
                x,
            );
        },
        _ => {},
    }
}

/// Whether every live symbol of a table was minted under its prefix.
pub open spec fn minted_here(t: TableModel) -> bool {
    forall|k: KeyModel| #[trigger]
        t.entries.contains_key(k) ==> minted_under(t.prefix, t.entries[k].entry.symbol)
}

/// Whether a name is one that is minted under this prefix.
pub open spec fn minted_under(prefix: Seq<char>, name: Seq<char>) -> bool {
    exists|i: nat| name == #[trigger] symbol(prefix, i)
}

/// Skolemization brings in no symbol but those that are minted under the table's prefix.
pub proof fn skolemized_symbols(f: FormulaModel, deps: Seq<VarId>, t: TableModel)
    requires
        minted_here(t),
    ensures
        minted_here(skolemized(f, deps, t).1),
        skolemized(f, deps, t).1.prefix == t.prefix,
        forall|n: Seq<char>| #[trigger]
            mentions(n, skolemized(f, deps, t).0) ==> mentions(n, f) || minted_under(t.prefix, n),
    decreases height(f),
{
    let new = skolemized(f, deps, t).0;
    match f {
        FormulaModel::And(l, r) | FormulaModel::Or(l, r) => {
            let t1 = skolemized(*l, deps, t).1;
            skolemized_symbols(*l, deps, t);
            skolemized_symbols(*r, deps, t1);
            assert forall|n: Seq<char>| #[trigger] mentions(n, new) implies mentions(n, f)
                || minted_under(t.prefix, n) by {
                assert(mentions(n, skolemized(*l, deps, t).0) || mentions(
                    n,
                    skolemized(*r, deps, t1).0,
                ));
            }
        },
        FormulaModel::ForAll(v, body) => {
            let inner = deps.push(v);
            skolemized_symbols(*body, inner, t);
            assert forall|n: Seq<char>| #[trigger] mentions(n, new) implies mentions(n, f)
                || minted_under(t.prefix, n) by {
                assert(mentions(n, skolemized(*body, inner, t).0));
            }
        },
        FormulaModel::Exists(v, body) => {
            let key = KeyModel { body: *body, deps };
            let sym = t.entry_for(key).symbol;
            let rep = skolem_term(sym, deps);
            let mid = witnessed(v, *body, deps, t);
            let t1 = t.looked_up(key);
            witnessed_scope(v, *body, deps, t);
            skolem_term_parts(sym, deps);
            assert(minted_under(t.prefix, sym)) by {
                if !t.entries.contains_key(key) {
                    assert(sym == symbol(t.prefix, t.minted + 1));
                }
            }
            assert(minted_here(t1)) by {
                assert forall|k: KeyModel| #[trigger] t1.entries.contains_key(
                    k,
                ) implies minted_under(t1.prefix, t1.entries[k].entry.symbol) by {
                    if k != key {
                        assert(t.entries.contains_key(k));
                    }
                }
            }
            skolemized_symbols(mid, deps, t1);
            assert forall|n: Seq<char>| #[trigger] mentions(n, new) implies mentions(n, f)
                || minted_under(t.prefix, n) by {
                if mentions(n, mid) {
                    mentions_subst(n, *body, v, rep);
                }
            }
        },
        _ => {},
    }
}

/// Skolemization is sound: wherever the result holds, the formula holds too.
pub proof fn skolemized_implies_formula<D>(
    f: FormulaModel,
    deps: Seq<VarId>,
    t: TableModel,
    s: Structure<D>,
    env: spec_fn(VarId) -> D,
)
    requires
        well_scoped(f, deps),
        s.valid(),
        s.admits(env),
        satisfies(s, env, skolemized(f, deps, t).0),
    ensures
        satisfies(s, env, f),
    decreases height(f),
{
    match f {
        FormulaModel::And(l, r) => {
            let t1 = skolemized(*l, deps, t).1;
            skolemized_implies_formula(*l, deps, t, s, env);
            skolemized_implies_formula(*r, deps, t1, s, env);
        },
        FormulaModel::Or(l, r) => {
            let t1 = skolemized(*l, deps, t).1;
            if satisfies(s, env, skolemized(*l, deps, t).0) {
                skolemized_implies_formula(*l, deps, t, s, env);
            } else {
                skolemized_implies_formula(*r, deps, t1, s, env);
            }
        },
        FormulaModel::ForAll(v, body) => {
            let inner = deps.push(v);
            let new = skolemized(*body, inner, t).0;
            satisfies_forall(s, env, v, new);
            assert forall|d: D| s.dom.contains(d) implies satisfies(
                s,
                #[trigger] assigned(env, v, d),
                *body,
            ) by {
                skolemized_implies_formula(*body, inner, t, s, assigned(env, v, d));
            }
        },
        FormulaModel::Exists(v, body) => {
            let key = KeyModel { body: *body, deps };
            let sym = t.entry_for(key).symbol;
            let rep = skolem_term(sym, deps);
            witnessed_scope(v, *body, deps, t);
            skolemized_implies_formula(
                witnessed(v, *body, deps, t),
                deps,
                t.looked_up(key),
                s,
                env,
            );
            no_capture(sym, deps, *body);
            satisfies_subst(s, env, *body, v, rep);
            value_in_domain(s, env, rep);
            assert(satisfies(s, assigned(env, v, value(s, env, rep)), *body));
        },
        _ => {},
    }
}

/// No quantifier of a well-scoped formula captures a variable of a Skolem term.
proof fn no_capture(sym: Seq<char>, deps: Seq<VarId>, body: FormulaModel)
    requires
        well_scoped(body, deps),
    ensures
        forall|x: VarId| #[trigger] occurs(x, skolem_term(sym, deps)) ==> !binds(x, body),
{
    skolem_term_parts(sym, deps);
    assert forall|x: VarId| #[trigger] occurs(x, skolem_term(sym, deps)) implies !binds(
        x,
        body,
    ) by {
        well_scoped_binds(body, deps, x);
    }
}

/// Whether `name` is a symbol that the table has yet to mint, up to the number `limit`.
pub open spec fn ahead(t: TableModel, name: Seq<char>, limit: nat) -> bool {
    exists|n: nat| t.minted < n <= limit && name == #[trigger] symbol(t.prefix, n)
}

/// Whether a formula keeps clear of the symbols that the table has yet to mint, up to `limit`.
pub open spec fn clear_of(f: FormulaModel, t: TableModel, limit: nat) -> bool {
    forall|n: Seq<char>| #[trigger] mentions(n, f) ==> !ahead(t, n, limit)
}

/// Whether `h` records, for symbols minted so far, the key that each was minted for, and among
/// them every symbol that is live in the table. None of them, and none in their keys, is yet to be
/// minted, up to the number `limit`.
pub open spec fn recorded(t: TableModel, h: Map<Seq<char>, KeyModel>, limit: nat) -> bool {
    &&& forall|k: KeyModel| #[trigger]
        t.entries.contains_key(k) ==> {
            &&& h.contains_key(t.entries[k].entry.symbol)
            &&& h[t.entries[k].entry.symbol] == k
        }
    &&& forall|n: Seq<char>| #[trigger]
        h.contains_key(n) ==> !ahead(t, n, limit) && clear_of(h[n].body, t, limit)
}

/// The elements that stand for the variables `deps`.
pub open spec fn elements<D>(env: spec_fn(VarId) -> D, deps: Seq<VarId>) -> Seq<D> {
    Seq::new(deps.len(), |i: int| env(deps[i]))
}

/// Whether the symbol `n` picks a witness for the existential of `key` wherever there is one.
pub open spec fn witnesses<D>(s: Structure<D>, n: Seq<char>, key: KeyModel) -> bool {
    forall|v: VarId, env: spec_fn(VarId) -> D|
        !key.deps.contains(v) && closed_under(key.body, key.deps.push(v)) && s.admits(env)
            && #[trigger] satisfies(
            s,
            env,
            FormulaModel::Exists(v, Box::new(key.body)),
        ) ==> satisfies(
            s,
            assigned(env, v, (s.fun)(n, elements(env, key.deps))),
            key.body,
        )
}

/// Whether every recorded symbol picks witnesses for the key that it was minted for.
pub open spec fn skolem_model<D>(s: Structure<D>, h: Map<Seq<char>, KeyModel>) -> bool {
    forall|n: Seq<char>| #[trigger] h.contains_key(n) ==> witnesses(s, n, h[n])
}

/// Whether `s2` differs from `s1` only in symbols that the table has yet to mint, up to the number
/// `limit`.
pub open spec fn extends<D>(s1: Structure<D>, s2: Structure<D>, t: TableModel, limit: nat) -> bool {
    &&& s1.dom == s2.dom
    &&& s1.rel == s2.rel
    &&& s2.valid()
    &&& forall|n: Seq<char>| !ahead(t, n, limit) ==> #[trigger] agree_on(s1, s2, n)
}

/// An assignment of `args` to the variables `deps`.
spec fn assignment<D>(deps: Seq<VarId>, args: Seq<D>) -> spec_fn(VarId) -> D {
    |x: VarId|
        if deps.contains(x) {
            args[deps.index_of(x)]
        } else {
            arbitrary()
        }
}

/// An element for which `body` holds, or any element if there is none.
spec fn witness<D>(
    s: Structure<D>,
    env: spec_fn(VarId) -> D,
    v: VarId,
    body: FormulaModel,
) -> D {
    if exists|d: D| s.dom.contains(d) && satisfies(s, #[trigger] assigned(env, v, d), body) {
        choose|d: D| s.dom.contains(d) && satisfies(s, #[trigger] assigned(env, v, d), body)
    } else {
        choose|d: D| s.dom.contains(d)
    }
}

/// The structure in which the symbol `n` picks witnesses for an existential.
spec fn with_witness<D>(s: Structure<D>, n: Seq<char>, v: VarId, key: KeyModel) -> Structure<D> {
    Structure {
        fun: |m: Seq<char>, args: Seq<D>|
            if m == n {
                witness(s, assignment(key.deps, args), v, key.body)
            } else {
                (s.fun)(m, args)
            },
        ..s
    }
}

/// A formula that keeps clear of future symbols holds alike in a structure and its extension.
proof fn satisfies_extended<D>(
    s1: Structure<D>,
    s2: Structure<D>,
    t: TableModel,
    env: spec_fn(VarId) -> D,
    f: FormulaModel,
    limit: nat,
)
    requires
        extends(s1, s2, t, limit),
        clear_of(f, t, limit),
    ensures
        satisfies(s1, env, f) == satisfies(s2, env, f),
{
    satisfies_depends(s1, s2, env, env, f);
}

/// What was recorded keeps its witnesses in an extension.
proof fn skolem_model_extended<D>(
    s1: Structure<D>,
    s2: Structure<D>,
    t: TableModel,
    h: Map<Seq<char>, KeyModel>,
    limit: nat,
)
    requires
        extends(s1, s2, t, limit),
        recorded(t, h, limit),
        skolem_model(s1, h),
    ensures
        skolem_model(s2, h),
{
    assert forall|n: Seq<char>| #[trigger] h.contains_key(n) implies witnesses(s2, n, h[n]) by {
        let key = h[n];
        assert forall|v: VarId, env: spec_fn(VarId) -> D|
            !key.deps.contains(v) && closed_under(key.body, key.deps.push(v)) && s2.admits(env)
                && #[trigger] satisfies(
                s2,
                env,
                FormulaModel::Exists(v, Box::new(key.body)),
            ) implies satisfies(
            s2,
            assigned(env, v, (s2.fun)(n, elements(env, key.deps))),
            key.body,
        ) by {
            let f = FormulaModel::Exists(v, Box::new(key.body));
            assert(clear_of(f, t, limit)) by {
                assert forall|m: Seq<char>| #[trigger] mentions(m, f) implies !ahead(t, m, limit) by {
                    assert(mentions(m, key.body));
                }
            }
            satisfies_extended(s1, s2, t, env, f, limit);
            assert(witnesses(s1, n, key));
            assert(satisfies(s1, env, f));
            assert(agree_on(s1, s2, n));
            let d = (s1.fun)(n, elements(env, key.deps));
            assert(d == (s2.fun)(n, elements(env, key.deps)));
            satisfies_extended(s1, s2, t, assigned(env, v, d), key.body, limit);
        }
    }
}

/// A symbol that is minted for an existential can be given its witnesses.
proof fn mint_witness<D>(
    s: Structure<D>,
    t: TableModel,
    h: Map<Seq<char>, KeyModel>,
    v: VarId,
    key: KeyModel,
    limit: nat,
) -> (r: Structure<D>)
    requires
        s.valid(),
        recorded(t, h, limit),
        skolem_model(s, h),
        t.minted < limit,
        !t.entries.contains_key(key),
        !key.deps.contains(v),
        closed_under(key.body, key.deps.push(v)),
        clear_of(key.body, t, limit),
    ensures
        extends(s, r, t, limit),
        skolem_model(r, h.insert(t.entry_for(key).symbol, key)),
        recorded(t.looked_up(key), h.insert(t.entry_for(key).symbol, key), limit),
{
    let n = t.entry_for(key).symbol;
    let t2 = t.looked_up(key);
    let h2 = h.insert(n, key);
    let r = with_witness(s, n, v, key);
    assert(ahead(t, n, limit));
    assert(extends(s, r, t, limit)) by {
        let d = choose|d: D| s.dom.contains(d);
        assert(r.dom.contains(d));
        assert forall|m: Seq<char>, args: Seq<D>| r.covers(args) implies r.dom.contains(
            #[trigger] (r.fun)(m, args),
        ) by {
            assert(s.covers(args));
            if m != n {
                assert(s.dom.contains((s.fun)(m, args)));
            }
        }
        assert forall|m: Seq<char>| !ahead(t, m, limit) implies #[trigger] agree_on(s, r, m) by {}
    }
    skolem_model_extended(s, r, t, h, limit);
    assert(witnesses(r, n, key)) by {
        assert forall|w: VarId, env: spec_fn(VarId) -> D|
            !key.deps.contains(w) && closed_under(key.body, key.deps.push(w)) && r.admits(env)
                && #[trigger] satisfies(
                r,
                env,
                FormulaModel::Exists(w, Box::new(key.body)),
            ) implies satisfies(
            r,
            assigned(env, w, (r.fun)(n, elements(env, key.deps))),
            key.body,
        ) by {
            witness_found(s, r, t, n, v, w, key, env, limit);
        }
    }
    assert(skolem_model(r, h2)) by {
        assert forall|m: Seq<char>| #[trigger] h2.contains_key(m) implies witnesses(
            r,
            m,
            h2[m],
        ) by {
            if m != n {
                assert(h.contains_key(m));
            }
        }
    }
    assert(recorded(t2, h2, limit)) by {
        assert forall|m: Seq<char>| #[trigger] ahead(t2, m, limit) implies ahead(t, m, limit) && m != n by {
            let i = choose|i: nat| t2.minted < i <= limit && m == #[trigger] symbol(t2.prefix, i);
            assert(m == symbol(t.prefix, i));
            if m == n {
                symbol_injective(t.prefix, i, t.minted + 1);
            }
        }
        assert forall|k: KeyModel| #[trigger] t2.entries.contains_key(k) implies {
            &&& h2.contains_key(t2.entries[k].entry.symbol)
            &&& h2[t2.entries[k].entry.symbol] == k
        } by {
            if k != key {
                assert(t.entries.contains_key(k));
                assert(t2.entries[k] == t.entries[k]);
                assert(h.contains_key(t.entries[k].entry.symbol));
            }
        }
        assert forall|m: Seq<char>| #[trigger] h2.contains_key(m) implies !ahead(t2, m, limit)
            && clear_of(h2[m].body, t2, limit) by {
            if m != n {
                assert(h.contains_key(m));
            }
        }
    }
    r
}

/// In the structure that [`with_witness`] gives, the new symbol does pick witnesses.
proof fn witness_found<D>(
    s: Structure<D>,
    r: Structure<D>,
    t: TableModel,
    n: Seq<char>,
    v: VarId,
    w: VarId,
    key: KeyModel,
    env: spec_fn(VarId) -> D,
    limit: nat,
)
    requires
        r == with_witness(s, n, v, key),
        extends(s, r, t, limit),
        clear_of(key.body, t, limit),
        !key.deps.contains(v),
        closed_under(key.body, key.deps.push(v)),
        !key.deps.contains(w),
        closed_under(key.body, key.deps.push(w)),
        r.admits(env),
        satisfies(r, env, FormulaModel::Exists(w, Box::new(key.body))),
    ensures
        satisfies(r, assigned(env, w, (r.fun)(n, elements(env, key.deps))), key.body),
{
    let args = elements(env, key.deps);
    let base = assignment(key.deps, args);
    let pick = (r.fun)(n, args);
    satisfies_exists(r, env, w, key.body);
    let d = choose|d: D|
        r.dom.contains(d) && satisfies(r, #[trigger] assigned(env, w, d), key.body);
    assert forall|x: VarId| #[trigger] free_in(x, key.body) implies x == v || key.deps.contains(
        x,
    ) by {
        let i = choose|i: int| 0 <= i < key.deps.push(v).len() && key.deps.push(v)[i] == x;
        if i < key.deps.len() {
            assert(key.deps[i] == x);
        }
    }
    assert forall|x: VarId| #[trigger] free_in(x, key.body) implies x == w || key.deps.contains(
        x,
    ) by {
        let i = choose|i: int| 0 <= i < key.deps.push(w).len() && key.deps.push(w)[i] == x;
        if i < key.deps.len() {
            assert(key.deps[i] == x);
        }
    }
    if w == v {
        assert forall|x: VarId| key.deps.contains(x) implies #[trigger] base(x) == env(x) by {
            assert(key.deps[key.deps.index_of(x)] == x);
        }
        satisfies_extended(s, r, t, assigned(env, v, d), key.body, limit);
        satisfies_depends(s, s, assigned(env, v, d), assigned(base, v, d), key.body);
        assert(satisfies(s, assigned(base, v, d), key.body));
        assert(satisfies(s, assigned(base, v, pick), key.body));
        satisfies_depends(s, s, assigned(env, v, pick), assigned(base, v, pick), key.body);
        satisfies_extended(s, r, t, assigned(env, v, pick), key.body, limit);
    } else {
        satisfies_depends(r, r, assigned(env, w, d), assigned(env, w, pick), key.body);
    }
}

/// Fewer symbols are yet to be minted after more have been.
proof fn ahead_shrinks(t1: TableModel, t2: TableModel, limit: nat)
    requires
        t1.prefix == t2.prefix,
        t1.minted <= t2.minted,
    ensures
        forall|n: Seq<char>| #[trigger] ahead(t2, n, limit) ==> ahead(t1, n, limit),
{
    assert forall|n: Seq<char>| #[trigger] ahead(t2, n, limit) implies ahead(t1, n, limit) by {
        let i = choose|i: nat| t2.minted < i <= limit && n == #[trigger] symbol(t2.prefix, i);
        assert(n == symbol(t1.prefix, i));
    }
}

/// The pass only ever mints more symbols, under the same prefix.
pub proof fn skolemized_mints_forward(f: FormulaModel, deps: Seq<VarId>, t: TableModel)
    ensures
        skolemized(f, deps, t).1.prefix == t.prefix,
        skolemized(f, deps, t).1.minted >= t.minted,
    decreases height(f),
{
    match f {
        FormulaModel::And(l, r) | FormulaModel::Or(l, r) => {
            skolemized_mints_forward(*l, deps, t);
            skolemized_mints_forward(*r, deps, skolemized(*l, deps, t).1);
        },
        FormulaModel::ForAll(v, body) => {
            skolemized_mints_forward(*body, deps.push(v), t);
        },
        FormulaModel::Exists(v, body) => {
            let key = KeyModel { body: *body, deps };
            witnessed_scope(v, *body, deps, t);
            skolemized_mints_forward(witnessed(v, *body, deps, t), deps, t.looked_up(key));
        },
        _ => {},
    }
}

/// The body of an existential with its witness keeps clear of the symbols that are still to come.
proof fn witnessed_clear(
    v: VarId,
    body: FormulaModel,
    deps: Seq<VarId>,
    t: TableModel,
    h: Map<Seq<char>, KeyModel>,
    limit: nat,
)
    requires
        recorded(t, h, limit),
        clear_of(body, t, limit),
    ensures
        clear_of(
            witnessed(v, body, deps, t),
            t.looked_up(KeyModel { body, deps }),
            limit,
        ),
{
    let key = KeyModel { body, deps };
    let t2 = t.looked_up(key);
    let sym = t.entry_for(key).symbol;
    let rep = skolem_term(sym, deps);
    let new = witnessed(v, body, deps, t);
    skolem_term_parts(sym, deps);
    ahead_shrinks(t, t2, limit);
    assert(!ahead(t2, sym, limit)) by {
        if t.entries.contains_key(key) {
            assert(h.contains_key(sym));
        } else if ahead(t2, sym, limit) {
            let i = choose|i: nat| t2.minted < i <= limit && sym == #[trigger] symbol(t2.prefix, i);
            symbol_injective(t.prefix, i, t.minted + 1);
        }
    }
    assert forall|n: Seq<char>| #[trigger] mentions(n, new) implies !ahead(t2, n, limit) by {
        mentions_subst(n, body, v, rep);
    }
}

/// Skolemization loses no model: a structure whose recorded symbols pick their witnesses extends,
/// by a meaning for the symbols that the pass mints, to one in which the result holds wherever the
/// formula held.
pub proof fn formula_extends_to_skolemized<D>(
    f: FormulaModel,
    deps: Seq<VarId>,
    t: TableModel,
    h: Map<Seq<char>, KeyModel>,
    s: Structure<D>,
    limit: nat,
) -> (r: (Structure<D>, Map<Seq<char>, KeyModel>))
    requires
        well_scoped(f, deps),
        closed_under(f, deps),
        skolemized(f, deps, t).1.minted <= limit,
        clear_of(f, t, limit),
        recorded(t, h, limit),
        s.valid(),
        skolem_model(s, h),
    ensures
        extends(s, r.0, t, limit),
        recorded(skolemized(f, deps, t).1, r.1, limit),
        skolem_model(r.0, r.1),
        clear_of(skolemized(f, deps, t).0, skolemized(f, deps, t).1, limit),
        forall|env: spec_fn(VarId) -> D|
            s.admits(env) && #[trigger] satisfies(s, env, f) ==> satisfies(
                r.0,
                env,
                skolemized(f, deps, t).0,
            ),
    decreases height(f),
{
    let (new, end) = skolemized(f, deps, t);
    match f {
        FormulaModel::And(l, r) | FormulaModel::Or(l, r) => {
            let (nl, t1) = skolemized(*l, deps, t);
            let nr = skolemized(*r, deps, t1).0;
            assert forall|x: VarId| #[trigger] free_in(x, *l) implies deps.contains(x) by {
                assert(free_in(x, f));
            }
            assert forall|x: VarId| #[trigger] free_in(x, *r) implies deps.contains(x) by {
                assert(free_in(x, f));
            }
            assert forall|n: Seq<char>| #[trigger] mentions(n, *l) implies !ahead(t, n, limit) by {
                assert(mentions(n, f));
            }
            assert forall|n: Seq<char>| #[trigger] mentions(n, *r) implies !ahead(t, n, limit) by {
                assert(mentions(n, f));
            }
            skolemized_mints_forward(*l, deps, t);
            skolemized_mints_forward(*r, deps, t1);
            ahead_shrinks(t, t1, limit);
            ahead_shrinks(t1, end, limit);
            let (s1, h1) = formula_extends_to_skolemized(*l, deps, t, h, s, limit);
            let (s2, h2) = formula_extends_to_skolemized(*r, deps, t1, h1, s1, limit);
            assert forall|n: Seq<char>| !ahead(t, n, limit) implies #[trigger] agree_on(s, s2, n) by {
                assert(agree_on(s, s1, n));
                assert(agree_on(s1, s2, n));
            }
            assert forall|env: spec_fn(VarId) -> D| s.admits(env) && #[trigger] satisfies(
                s,
                env,
                f,
            ) implies satisfies(s2, env, new) by {
                satisfies_extended(s, s1, t, env, *r, limit);
                satisfies_extended(s1, s2, t1, env, nl, limit);
                if satisfies(s, env, *l) {
                    assert(satisfies(s1, env, nl));
                }
                if satisfies(s, env, *r) {
                    assert(satisfies(s1, env, *r));
                    assert(satisfies(s2, env, nr));
                }
            }
            assert forall|n: Seq<char>| #[trigger] mentions(n, new) implies !ahead(end, n, limit) by {
                assert(mentions(n, nl) || mentions(n, nr));
            }
            (s2, h2)
        },
        FormulaModel::ForAll(v, body) => {
            let inner = deps.push(v);
            let nb = skolemized(*body, inner, t).0;
            assert forall|x: VarId| #[trigger] free_in(x, *body) implies inner.contains(x) by {
                if x == v {
                    assert(inner[deps.len() as int] == x);
                } else {
                    assert(free_in(x, f));
                    let i = choose|i: int| 0 <= i < deps.len() && deps[i] == x;
                    assert(inner[i] == x);
                }
            }
            assert forall|n: Seq<char>| #[trigger] mentions(n, *body) implies !ahead(t, n, limit) by {
                assert(mentions(n, f));
            }
            let (s1, h1) = formula_extends_to_skolemized(*body, inner, t, h, s, limit);
            assert forall|env: spec_fn(VarId) -> D| s.admits(env) && #[trigger] satisfies(
                s,
                env,
                f,
            ) implies satisfies(s1, env, new) by {
                satisfies_forall(s1, env, v, nb);
                assert forall|d: D| s1.dom.contains(d) implies satisfies(
                    s1,
                    #[trigger] assigned(env, v, d),
                    nb,
                ) by {
                    assert(s.admits(assigned(env, v, d)));
                    assert(satisfies(s, assigned(env, v, d), *body));
                }
            }
            assert forall|n: Seq<char>| #[trigger] mentions(n, new) implies !ahead(end, n, limit) by {
                assert(mentions(n, nb));
            }
            (s1, h1)
        },
        FormulaModel::Exists(v, body) => {
            let key = KeyModel { body: *body, deps };
            let t1 = t.looked_up(key);
            let sym = t.entry_for(key).symbol;
            let rep = skolem_term(sym, deps);
            let mid = witnessed(v, *body, deps, t);
            assert(f == FormulaModel::Exists(v, Box::new(*body)));
            assert(clear_of(*body, t, limit)) by {
                assert forall|n: Seq<char>| #[trigger] mentions(n, *body) implies !ahead(t, n, limit) by {
                    assert(mentions(n, f));
                }
            }
            assert(closed_under(*body, deps.push(v))) by {
                assert forall|x: VarId| #[trigger] free_in(x, *body) implies deps.push(v).contains(
                    x,
                ) by {
                    if x == v {
                        assert(deps.push(v)[deps.len() as int] == x);
                    } else {
                        assert(free_in(x, f));
                        let i = choose|i: int| 0 <= i < deps.len() && deps[i] == x;
                        assert(deps.push(v)[i] == x);
                    }
                }
            }
            witnessed_scope(v, *body, deps, t);
            skolemized_mints_forward(mid, deps, t1);
            witnessed_clear(v, *body, deps, t, h, limit);
            no_capture(sym, deps, *body);
            ahead_shrinks(t, t1, limit);
            let (s1, h1) = if t.entries.contains_key(key) {
                assert(recorded(t1, h, limit)) by {
                    assert forall|k: KeyModel| #[trigger] t1.entries.contains_key(k) implies {
                        &&& h.contains_key(t1.entries[k].entry.symbol)
                        &&& h[t1.entries[k].entry.symbol] == k
                    } by {
                        assert(t.entries.contains_key(k));
                    }
                }
                assert(extends(s, s, t, limit));
                (s, h)
            } else {
                (mint_witness(s, t, h, v, key, limit), h.insert(sym, key))
            };
            assert(witnesses(s1, sym, key)) by {
                assert(h1.contains_key(sym) && h1[sym] == key);
            }
            let (s2, h2) = formula_extends_to_skolemized(mid, deps, t1, h1, s1, limit);
            assert forall|n: Seq<char>| !ahead(t, n, limit) implies #[trigger] agree_on(s, s2, n) by {
                assert(agree_on(s, s1, n));
                assert(agree_on(s1, s2, n));
            }
            assert forall|env: spec_fn(VarId) -> D| s.admits(env) && #[trigger] satisfies(
                s,
                env,
                f,
            ) implies satisfies(s2, env, new) by {
                satisfies_extended(s, s1, t, env, f, limit);
                assert(satisfies(s1, env, FormulaModel::Exists(v, Box::new(key.body))));
                let d = (s1.fun)(sym, elements(env, deps));
                assert(satisfies(s1, assigned(env, v, d), *body));
                assert(values(s1, env, var_terms(deps)) =~= elements(env, deps));
                assert(value(s1, env, rep) == d);
                satisfies_subst(s1, env, *body, v, rep);
                assert(satisfies(s1, env, mid));
            }
            (s2, h2)
        },
        _ => {
            assert(extends(s, s, t, limit));
            (s, h)
        },
    }
}

/// Whether `t2` is `t1` after scope changes and the dropping of entries: nothing is minted, and
/// what is live was live before.
pub open spec fn rescoped(t1: TableModel, t2: TableModel) -> bool {
    &&& t2.prefix == t1.prefix
    &&& t2.minted == t1.minted
    &&& forall|k: KeyModel| #[trigger]
        t2.entries.contains_key(k) ==> t1.entries.contains_key(k) && t2.entries[k].entry
            == t1.entries[k].entry
}

/// Scopes may be entered and left, and entries dropped, in any order between two formulas.
pub proof fn rescoping(t: TableModel, n: usize)
    ensures
        rescoped(t, t),
        rescoped(t, t.pushed()),
        rescoped(t, t.popped(n)),
        rescoped(t, t.evicted()),
        rescoped(t, t.collected(n)),
        forall|t2: TableModel, t3: TableModel|
            rescoped(t, t2) && #[trigger] rescoped(t2, t3) ==> rescoped(t, t3),
{
}

/// Whether `ts[i]` is the table as it was when `fs[i]` was Skolemized, for a session that
/// Skolemized the formulas `fs` in this order.
pub open spec fn session(fs: Seq<FormulaModel>, ts: Seq<TableModel>) -> bool {
    &&& fs.len() == ts.len()
    &&& forall|i: int|
        0 <= i < fs.len() - 1 ==> rescoped(
            (#[trigger] skolemized(fs[i], Seq::empty(), ts[i])).1,
            ts[i + 1],
        )
}

/// How many symbols there are at the end of a session.
pub open spec fn session_minted(fs: Seq<FormulaModel>, ts: Seq<TableModel>) -> nat {
    skolemized(fs.last(), Seq::empty(), ts.last()).1.minted
}

/// Whether a formula stands on its own: it has no free variable, no quantifier that binds an outer
/// universal variable again, and no symbol that the table mints up to the number `limit`.
pub open spec fn assertable(f: FormulaModel, t: TableModel, limit: nat) -> bool {
    &&& well_scoped(f, Seq::empty())
    &&& closed_under(f, Seq::empty())
    &&& clear_of(f, t, limit)
}

/// Skolemization keeps satisfiability over a whole session, in which symbols are found again
/// across scopes and entries come and go: every structure extends, by a meaning for the minted
/// symbols, to one in which each Skolemized formula holds exactly where the formula itself does.
pub proof fn session_keeps_satisfiability<D>(
    fs: Seq<FormulaModel>,
    ts: Seq<TableModel>,
    s: Structure<D>,
) -> (r: Structure<D>)
    requires
        s.valid(),
        session(fs, ts),
        fs.len() > 0,
        ts[0].minted == 0,
        ts[0].entries == Map::<KeyModel, crate::skolem_table::CachedModel>::empty(),
        forall|i: int| 0 <= i < fs.len() ==> assertable(
            #[trigger] fs[i],
            ts[0],
            session_minted(fs, ts),
        ),
    ensures
        extends(s, r, ts[0], session_minted(fs, ts)),
        forall|i: int, env: spec_fn(VarId) -> D|
            0 <= i < fs.len() && s.admits(env) ==> satisfies(s, env, fs[i]) == #[trigger] satisfies(
                r,
                env,
                skolemized(fs[i], Seq::empty(), ts[i]).0,
            ),
{
    let limit = session_minted(fs, ts);
    let (r, h) = session_prefix(fs, ts, s, fs.len(), limit);
    assert forall|i: int, env: spec_fn(VarId) -> D| 0 <= i < fs.len() && s.admits(
        env,
    ) implies satisfies(
        s,
        env,
        fs[i],
    ) == #[trigger] satisfies(r, env, skolemized(fs[i], Seq::empty(), ts[i]).0) by {
        assert(assertable(fs[i], ts[0], limit));
        satisfies_extended(s, r, ts[0], env, fs[i], limit);
        if satisfies(r, env, skolemized(fs[i], Seq::empty(), ts[i]).0) {
            skolemized_implies_formula(fs[i], Seq::empty(), ts[i], r, env);
        }
    }
    r
}

proof fn session_prefix<D>(
    fs: Seq<FormulaModel>,
    ts: Seq<TableModel>,
    s: Structure<D>,
    n: nat,
    limit: nat,
) -> (r: (Structure<D>, Map<Seq<char>, KeyModel>))
    requires
        s.valid(),
        session(fs, ts),
        0 < n <= fs.len(),
        skolemized(fs[n - 1], Seq::empty(), ts[n - 1]).1.minted <= limit,
        ts[0].minted == 0,
        ts[0].entries == Map::<KeyModel, crate::skolem_table::CachedModel>::empty(),
        forall|i: int| 0 <= i < fs.len() ==> assertable(#[trigger] fs[i], ts[0], limit),
    ensures
        extends(s, r.0, ts[0], limit),
        ts[n - 1].prefix == ts[0].prefix,
        recorded(skolemized(fs[n - 1], Seq::empty(), ts[n - 1]).1, r.1, limit),
        skolem_model(r.0, r.1),
        forall|i: int|
            0 <= i < n ==> clear_of(
                (#[trigger] skolemized(fs[i], Seq::empty(), ts[i])).0,
                skolemized(fs[n - 1], Seq::empty(), ts[n - 1]).1,
                limit,
            ),
        forall|i: int, env: spec_fn(VarId) -> D|
            0 <= i < n && s.admits(env) && satisfies(s, env, fs[i]) ==> #[trigger] satisfies(
                r.0,
                env,
                skolemized(fs[i], Seq::empty(), ts[i]).0,
            ),
    decreases n,
{
    let none = Seq::<VarId>::empty();
    let last = n - 1;
    let t = ts[last];
    let end = skolemized(fs[last], none, t).1;
    assert(assertable(fs[last], ts[0], limit));
    skolemized_mints_forward(fs[last], none, t);
    if n == 1 {
        assert(extends(s, s, t, limit));
        let (s2, h2) = formula_extends_to_skolemized(fs[last], none, t, Map::empty(), s, limit);
        (s2, h2)
    } else {
        let prev = skolemized(fs[last - 1], none, ts[last - 1]).1;
        skolemized_mints_forward(fs[last - 1], none, ts[last - 1]);
        assert(rescoped(prev, ts[last - 1 + 1]));
        let (s1, h1) = session_prefix(fs, ts, s, (n - 1) as nat, limit);
        ahead_shrinks(ts[0], t, limit);
        ahead_shrinks(prev, t, limit);
        ahead_shrinks(t, end, limit);
        assert(recorded(t, h1, limit)) by {
            assert forall|k: KeyModel| #[trigger] t.entries.contains_key(k) implies {
                &&& h1.contains_key(t.entries[k].entry.symbol)
                &&& h1[t.entries[k].entry.symbol] == k
            } by {
                assert(prev.entries.contains_key(k));
            }
        }
        let (s2, h2) = formula_extends_to_skolemized(fs[last], none, t, h1, s1, limit);
        assert forall|m: Seq<char>| !ahead(ts[0], m, limit) implies #[trigger] agree_on(s, s2, m) by {
            assert(agree_on(s, s1, m));
            assert(agree_on(s1, s2, m));
        }
        assert forall|i: int, env: spec_fn(VarId) -> D|
            0 <= i < n && s.admits(env) && satisfies(s, env, fs[i]) implies #[trigger] satisfies(
            s2,
            env,
            skolemized(fs[i], none, ts[i]).0,
        ) by {
            assert(assertable(fs[i], ts[0], limit));
            if i < last {
                let g = skolemized(fs[i], none, ts[i]).0;
                assert(satisfies(s1, env, g));
                satisfies_extended(s1, s2, t, env, g, limit);
            } else {
                satisfies_extended(s, s1, ts[0], env, fs[i], limit);
                assert(satisfies(s1, env, fs[i]));
            }
        }
        (s2, h2)
    }
}

} // verus!
