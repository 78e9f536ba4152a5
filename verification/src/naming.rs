//! The names of quantified variables: they are looked up in the scope in which they stand, and
//! which names are chosen makes no difference.

use crate::model::{FormulaModel, TermModel, VarId};
use crate::nnf::{bind, join, nnf, nnfs, RawModel};
use crate::reading::{
    atom_reading, binding_readings, equation, formula_reading, formula_readings, implication,
    meaning, quantified_reading, restored, term_reading, term_readings, unlike, unlike_later,
    Reading, Scope,
};
use crate::semantics::{free_in, occurs, occurs_among};
use crate::sexpr::SexprModel;
use crate::smt2::{assertion, run, step, Outcome, Progress};
use crate::verdicts::accepted_formulas_are_closed;
use vstd::prelude::*;

verus! {

/// The name that a binding gives, if it gives one.
pub open spec fn bound_name(binding: SexprModel) -> Option<Seq<char>> {
    match binding {
        SexprModel::List(pair) => if pair.len() > 0 && pair[0] is Atom {
            Some(pair[0]->Atom_0)
        } else {
            None
        },
        SexprModel::Atom(_) => None,
    }
}

/// Whether the bindings of a quantifier give different names.
pub open spec fn distinct_names(bindings: Seq<SexprModel>) -> bool {
    forall|i: int, j: int|
        0 <= i < j < bindings.len() ==> #[trigger] bound_name(bindings[i]) != #[trigger] bound_name(
            bindings[j],
        )
}

/// Whether no quantifier in a formula binds one name twice.
pub open spec fn binds_once(s: SexprModel) -> bool
    decreases s,
{
    match s {
        SexprModel::Atom(_) => true,
        SexprModel::List(items) => {
            &&& items.len() > 1 && (items[0] == SexprModel::Atom("forall"@) || items[0]
                == SexprModel::Atom("exists"@)) && items[1] is List ==> distinct_names(
                items[1]->List_0,
            )
            &&& all_bind_once(items)
        },
    }
}

/// The same of several formulas.
pub open spec fn all_bind_once(items: Seq<SexprModel>) -> bool
    decreases items,
{
    forall|i: int| 0 <= i < items.len() ==> binds_once(#[trigger] items[i])
}

/// Whether the variable `x` has a name in scope.
pub open spec fn named(x: VarId, env: Map<Seq<char>, VarId>) -> bool {
    exists|name: Seq<char>| #[trigger] env.contains_key(name) && env[name] == x
}

/// Whether the variable `x` is free in a formula as written.
pub open spec fn raw_free(x: VarId, f: RawModel) -> bool
    decreases f,
{
    match f {
        RawModel::Pred { name, args } => occurs_among(x, args),
        RawModel::Not(inner) => raw_free(x, *inner),
        RawModel::And(items) => raw_free_among(x, items),
        RawModel::Or(items) => raw_free_among(x, items),
        RawModel::Implies(l, r) => raw_free(x, *l) || raw_free(x, *r),
        RawModel::ForAll(vars, body) => !vars.contains(x) && raw_free(x, *body),
        RawModel::Exists(vars, body) => !vars.contains(x) && raw_free(x, *body),
        RawModel::True | RawModel::False => false,
    }
}

/// Whether the variable `x` is free in one of the formulas.
pub open spec fn raw_free_among(x: VarId, items: Seq<RawModel>) -> bool
    decreases items,
{
    exists|i: int| 0 <= i < items.len() && raw_free(x, #[trigger] items[i])
}

proof fn join_free(x: VarId, parts: Seq<FormulaModel>, conj: bool) -> (i: int)
    requires
        free_in(x, join(parts, conj)),
    ensures
        0 <= i < parts.len(),
        free_in(x, parts[i]),
    decreases parts.len(),
{
    if parts.len() == 1 || free_in(x, parts[0]) {
        0
    } else {
        let i = join_free(x, parts.skip(1), conj);
        i + 1
    }
}

proof fn bind_free(x: VarId, vars: Seq<VarId>, body: FormulaModel, universal: bool)
    requires
        free_in(x, bind(vars, body, universal)),
    ensures
        !vars.contains(x),
        free_in(x, body),
    decreases vars.len(),
{
    if vars.len() > 0 {
        bind_free(x, vars.skip(1), body, universal);
        if vars.contains(x) {
            let i = choose|i: int| 0 <= i < vars.len() && vars[i] == x;
            assert(vars.skip(1)[i - 1] == x);
        }
    }
}

/// Conversion to negation normal form brings in no free variable.
pub proof fn nnf_free(x: VarId, f: RawModel, polarity: bool)
    requires
        free_in(x, nnf(f, polarity)),
    ensures
        raw_free(x, f),
    decreases f,
{
    match f {
        RawModel::Pred { .. } | RawModel::True | RawModel::False => {},
        RawModel::Not(inner) => {
            nnf_free(x, *inner, !polarity);
        },
        RawModel::And(items) => {
            let i = join_free(x, nnfs(items, polarity), polarity);
            nnf_free(x, items[i], polarity);
            assert(raw_free_among(x, items));
        },
        RawModel::Or(items) => {
            let i = join_free(x, nnfs(items, polarity), !polarity);
            nnf_free(x, items[i], polarity);
            assert(raw_free_among(x, items));
        },
        RawModel::Implies(l, r) => {
            if free_in(x, nnf(*l, !polarity)) {
                nnf_free(x, *l, !polarity);
            } else {
                nnf_free(x, *r, polarity);
            }
        },
        RawModel::ForAll(vars, body) => {
            bind_free(x, vars, nnf(*body, polarity), polarity);
            nnf_free(x, *body, polarity);
        },
        RawModel::Exists(vars, body) => {
            bind_free(x, vars, nnf(*body, polarity), !polarity);
            nnf_free(x, *body, polarity);
        },
    }
}

proof fn term_named(s: SexprModel, env: Map<Seq<char>, VarId>, x: VarId)
    requires
        term_reading(s, env) is Read,
        occurs(x, term_reading(s, env)->Read_0),
    ensures
        named(x, env),
    decreases s, 0nat,
{
    match s {
        SexprModel::Atom(name) => {
            if !env.contains_key(name) {
                assert(occurs_among(x, Seq::<TermModel>::empty()));
            }
        },
        SexprModel::List(items) => {
            terms_named(items, items.len(), env, x);
        },
    }
}

proof fn terms_named(items: Seq<SexprModel>, n: nat, env: Map<Seq<char>, VarId>, x: VarId)
    requires
        n <= items.len(),
        term_readings(items, n, env) is Read,
        occurs_among(x, term_readings(items, n, env)->Read_0),
    ensures
        named(x, env),
    decreases items, n,
{
    let args = term_readings(items, n, env)->Read_0;
    let i = choose|i: int| 0 <= i < args.len() && occurs(x, #[trigger] args[i]);
    if n > 1 {
        let before = term_readings(items, (n - 1) as nat, env)->Read_0;
        if i < before.len() {
            assert(before[i] == args[i]);
            assert(occurs_among(x, before));
            terms_named(items, (n - 1) as nat, env, x);
        } else {
            term_named(items[n - 1], env, x);
        }
    }
}

/// The first `n` bindings give their names to their variables, and leave other names alone.
proof fn bindings_scoped(bindings: Seq<SexprModel>, n: nat, scope: Scope)
    requires
        n <= bindings.len(),
        binding_readings(bindings, n, scope) is Read,
        distinct_names(bindings),
    ensures
        ({
            let b = binding_readings(bindings, n, scope)->Read_0;
            &&& b.vars.len() == n
            &&& b.shadowed.len() == n
            &&& forall|i: int|
                0 <= i < n ==> {
                    &&& bound_name(bindings[i]) == Some((#[trigger] b.shadowed[i]).0)
                    &&& b.shadowed[i].1 == meaning(scope.env, b.shadowed[i].0)
                }
            &&& forall|name: Seq<char>|
                (forall|i: int| 0 <= i < n ==> (#[trigger] b.shadowed[i]).0 != name)
                    ==> #[trigger] meaning(b.inner.env, name) == meaning(scope.env, name)
            &&& forall|x: VarId| #[trigger]
                named(x, b.inner.env) ==> named(x, scope.env) || b.vars.contains(x)
        }),
    decreases n,
{
    let b = binding_readings(bindings, n, scope)->Read_0;
    if n > 0 {
        bindings_scoped(bindings, (n - 1) as nat, scope);
        let before = binding_readings(bindings, (n - 1) as nat, scope)->Read_0;
        let last = b.shadowed[n - 1].0;
        assert forall|i: int| 0 <= i < n implies {
            &&& bound_name(bindings[i]) == Some((#[trigger] b.shadowed[i]).0)
            &&& b.shadowed[i].1 == meaning(scope.env, b.shadowed[i].0)
        } by {
            if i < n - 1 {
                assert(b.shadowed[i] == before.shadowed[i]);
            } else {
                assert forall|j: int| 0 <= j < n - 1 implies (#[trigger] before.shadowed[j]).0
                    != last by {
                    assert(bound_name(bindings[j]) != bound_name(bindings[n - 1]));
                }
            }
        }
        assert forall|name: Seq<char>|
            (forall|i: int| 0 <= i < n ==> (#[trigger] b.shadowed[i]).0 != name) implies #[trigger] meaning(
            b.inner.env,
            name,
        ) == meaning(scope.env, name) by {
            assert(b.shadowed[n - 1].0 != name);
            assert forall|i: int| 0 <= i < n - 1 implies (#[trigger] before.shadowed[i]).0
                != name by {
                assert(b.shadowed[i] == before.shadowed[i]);
            }
            assert(meaning(before.inner.env, name) == meaning(scope.env, name));
        }
        assert forall|x: VarId| #[trigger] named(x, b.inner.env) implies named(x, scope.env)
            || b.vars.contains(x) by {
            let name = choose|name: Seq<char>| #[trigger]
                b.inner.env.contains_key(name) && b.inner.env[name] == x;
            if name == last {
                assert(b.vars[n - 1] == x);
            } else {
                assert(before.inner.env.contains_key(name));
                assert(named(x, before.inner.env));
                if before.vars.contains(x) {
                    let i = choose|i: int| 0 <= i < before.vars.len() && before.vars[i] == x;
                    assert(b.vars[i] == x);
                }
            }
        }
    }
}

/// Putting the first `k` shadowed meanings back restores those names.
proof fn restoring(
    env: Map<Seq<char>, VarId>,
    shadowed: Seq<(Seq<char>, Option<VarId>)>,
    outer: Map<Seq<char>, VarId>,
    k: nat,
)
    requires
        k <= shadowed.len(),
        forall|i: int|
            0 <= i < shadowed.len() ==> (#[trigger] shadowed[i]).1 == meaning(outer, shadowed[i].0),
    ensures
        forall|i: int|
            0 <= i < k ==> meaning(restored(env, shadowed, k), (#[trigger] shadowed[i]).0)
                == meaning(outer, shadowed[i].0),
        forall|name: Seq<char>|
            (forall|i: int| 0 <= i < k ==> (#[trigger] shadowed[i]).0 != name) ==> #[trigger] meaning(
                restored(env, shadowed, k),
                name,
            ) == meaning(env, name),
    decreases k,
{
    if k > 0 {
        restoring(env, shadowed, outer, (k - 1) as nat);
        let done = restored(env, shadowed, (k - 1) as nat);
        let new = restored(env, shadowed, k);
        let last = shadowed[k - 1];
        assert(meaning(new, last.0) == meaning(outer, last.0));
        assert forall|name: Seq<char>| name != last.0 implies #[trigger] meaning(new, name)
            == meaning(done, name) by {}
        assert forall|name: Seq<char>|
            (forall|i: int| 0 <= i < k ==> (#[trigger] shadowed[i]).0 != name) implies #[trigger] meaning(
            new,
            name,
        ) == meaning(env, name) by {
            assert(shadowed[k - 1].0 != name);
            assert(meaning(done, name) == meaning(env, name));
        }
    }
}

/// Two scopes in which every name has the same meaning are the same.
proof fn same_meanings(a: Map<Seq<char>, VarId>, b: Map<Seq<char>, VarId>)
    requires
        forall|name: Seq<char>| #[trigger] meaning(a, name) == meaning(b, name),
    ensures
        a == b,
{
    assert forall|name: Seq<char>| a.dom().contains(name) == b.dom().contains(name) by {
        assert(meaning(a, name) == meaning(b, name));
    }
    assert(a.dom() =~= b.dom());
    assert forall|name: Seq<char>| a.contains_key(name) implies a[name] == b[name] by {
        assert(meaning(a, name) == meaning(b, name));
    }
    assert(a =~= b);
}

/// Reading a formula in which no quantifier binds a name twice leaves the names in scope as they
/// were, and its free variables are among them.
pub proof fn reading_respects_scope(s: SexprModel, scope: Scope)
    requires
        formula_reading(s, scope) is Read,
        binds_once(s),
    ensures
        formula_reading(s, scope)->Read_0.1.env == scope.env,
        forall|x: VarId| #[trigger]
            raw_free(x, formula_reading(s, scope)->Read_0.0) ==> named(x, scope.env),
    decreases s, 0nat,
{
    let f = formula_reading(s, scope)->Read_0.0;
    match s {
        SexprModel::Atom(name) => {
            assert forall|x: VarId| #[trigger] raw_free(x, f) implies named(x, scope.env) by {
                assert(occurs_among(x, Seq::<TermModel>::empty()));
            }
        },
        SexprModel::List(items) => {
            let head = items[0]->Atom_0;
            assert(all_bind_once(items));
            if head == "and"@ || head == "or"@ || head == "=>"@ {
                readings_respect_scope(items, items.len(), scope);
                let parts = formula_readings(items, items.len(), scope)->Read_0.0;
                assert forall|x: VarId| #[trigger] raw_free(x, f) implies named(x, scope.env) by {
                    if head != "and"@ && head != "or"@ {
                        implication_free(parts, x);
                    }
                    assert(raw_free_among(x, parts));
                }
            } else if head == "not"@ {
                assert(binds_once(items[1]));
                reading_respects_scope(items[1], scope);
                assert forall|x: VarId| #[trigger] raw_free(x, f) implies named(x, scope.env) by {
                    assert(raw_free(x, formula_reading(items[1], scope)->Read_0.0));
                }
            } else if head == "forall"@ || head == "exists"@ {
                assert(quantified_reading(items, scope) is Read);
                let bindings = items[1]->List_0;
                let b = binding_readings(bindings, bindings.len(), scope)->Read_0;
                assert(items[0] == SexprModel::Atom(head));
                bindings_scoped(bindings, bindings.len(), scope);
                assert(binds_once(items[2]));
                reading_respects_scope(items[2], b.inner);
                let (body, after) = formula_reading(items[2], b.inner)->Read_0;
                restoring(after.env, b.shadowed, scope.env, b.shadowed.len());
                let back = restored(after.env, b.shadowed, b.shadowed.len());
                assert forall|name: Seq<char>| #[trigger] meaning(back, name) == meaning(
                    scope.env,
                    name,
                ) by {
                    if forall|i: int|
                        0 <= i < b.shadowed.len() ==> (#[trigger] b.shadowed[i]).0 != name {
                        assert(meaning(b.inner.env, name) == meaning(scope.env, name));
                    }
                }
                same_meanings(back, scope.env);
                assert forall|x: VarId| #[trigger] raw_free(x, f) implies named(x, scope.env) by {
                    assert(raw_free(x, body) && !b.vars.contains(x));
                    assert(named(x, b.inner.env));
                }
            } else {
                atom_respects_scope(head, items, scope.env);
                assert(f == atom_reading(head, items, scope.env)->Read_0);
            }
        },
    }
}

/// The same of several formulas.
pub proof fn readings_respect_scope(items: Seq<SexprModel>, n: nat, scope: Scope)
    requires
        n <= items.len(),
        formula_readings(items, n, scope) is Read,
        all_bind_once(items),
    ensures
        formula_readings(items, n, scope)->Read_0.1.env == scope.env,
        forall|x: VarId| #[trigger]
            raw_free_among(x, formula_readings(items, n, scope)->Read_0.0) ==> named(x, scope.env),
    decreases items, n,
{
    let parts = formula_readings(items, n, scope)->Read_0.0;
    if n > 1 {
        readings_respect_scope(items, (n - 1) as nat, scope);
        let (before, mid) = formula_readings(items, (n - 1) as nat, scope)->Read_0;
        assert(binds_once(items[n - 1]));
        reading_respects_scope(items[n - 1], mid);
        assert forall|x: VarId| #[trigger] raw_free_among(x, parts) implies named(x, scope.env) by {
            let i = choose|i: int| 0 <= i < parts.len() && raw_free(x, #[trigger] parts[i]);
            if i < before.len() {
                assert(parts[i] == before[i]);
                assert(raw_free_among(x, before));
            } else {
                assert(raw_free(x, formula_reading(items[n - 1], mid)->Read_0.0));
            }
        }
    }
}

proof fn implication_free(parts: Seq<RawModel>, x: VarId)
    requires
        parts.len() > 0,
        raw_free(x, implication(parts)),
    ensures
        raw_free_among(x, parts),
    decreases parts.len(),
{
    if parts.len() == 1 || raw_free(x, parts[0]) {
        assert(raw_free(x, parts[0]));
    } else {
        let rest = parts.skip(1);
        implication_free(rest, x);
        let i = choose|i: int| 0 <= i < rest.len() && raw_free(x, #[trigger] rest[i]);
        assert(parts[i + 1] == rest[i]);
    }
}

proof fn atom_respects_scope(head: Seq<char>, items: Seq<SexprModel>, env: Map<Seq<char>, VarId>)
    requires
        atom_reading(head, items, env) is Read,
    ensures
        forall|x: VarId| #[trigger]
            raw_free(x, atom_reading(head, items, env)->Read_0) ==> named(x, env),
{
    let f = atom_reading(head, items, env)->Read_0;
    assert forall|x: VarId| #[trigger] raw_free(x, f) implies named(x, env) by {
        if head == "="@ {
            let args = f->Pred_args;
            let i = choose|i: int| 0 <= i < args.len() && occurs(x, #[trigger] args[i]);
            term_named(items[i + 1], env, x);
        } else {
            let args = term_readings(items, items.len(), env)->Read_0;
            if head == "distinct"@ {
                unlike_free(args, args.len(), x);
            }
            terms_named(items, items.len(), env, x);
        }
    }
}

proof fn unlike_free(terms: Seq<TermModel>, n: nat, x: VarId)
    requires
        n <= terms.len(),
        raw_free_among(x, unlike(terms, n)),
    ensures
        occurs_among(x, terms),
    decreases n,
{
    let all = unlike(terms, n);
    let i = choose|i: int| 0 <= i < all.len() && raw_free(x, #[trigger] all[i]);
    if n > 0 {
        let before = unlike(terms, (n - 1) as nat);
        if i < before.len() {
            assert(all[i] == before[i]);
            unlike_free(terms, (n - 1) as nat, x);
        } else {
            let row = unlike_later(terms, n - 1);
            let k = i - before.len();
            assert(all[i] == row[k]);
            let pair = seq![terms[n - 1], terms[n + k]];
            assert(*row[k]->Not_0 == equation(terms[n - 1], terms[n + k]));
            assert(raw_free(x, equation(terms[n - 1], terms[n + k])));
            assert(occurs_among(x, pair));
            let j = choose|j: int| 0 <= j < pair.len() && occurs(x, #[trigger] pair[j]);
            if j == 0 {
                assert(occurs(x, terms[n - 1]));
            } else {
                assert(occurs(x, terms[n + k]));
            }
        }
    }
}

/// A formula in which no quantifier binds a name twice is read as a closed one, so the bridge does
/// not refuse it.
pub proof fn readable_assertions_are_not_refused(m: Progress, items: Seq<SexprModel>)
    requires
        items.len() > 1,
        binds_once(items[1]),
    ensures
        match assertion(m, items).1 {
            Outcome::Fails(e) => e is Semantic,
            _ => true,
        },
{
    let scope = Scope { env: Map::empty(), next: 0 };
    if formula_reading(items[1], scope) is Read {
        let raw = formula_reading(items[1], scope)->Read_0.0;
        let f = nnf(raw, true);
        reading_respects_scope(items[1], scope);
        assert forall|x: VarId| #[trigger] free_in(x, f) implies Seq::<VarId>::empty().contains(
            x,
        ) by {
            nnf_free(x, raw, true);
            assert(named(x, scope.env));
        }
        accepted_formulas_are_closed(m.at.solver, f);
    }
}

/// Whether no quantifier in an assertion of a script binds one name twice.
pub open spec fn assertions_bind_once(cmds: Seq<SexprModel>) -> bool {
    forall|i: int|
        0 <= i < cmds.len() ==> match #[trigger] cmds[i] {
            SexprModel::List(items) => items.len() > 1 && items[0] == SexprModel::Atom("assert"@)
                ==> binds_once(items[1]),
            SexprModel::Atom(_) => true,
        }
}

/// A script in which no quantifier binds one name twice never fails in the bridge: what is wrong
/// with it, if anything, is the form of a command.
pub proof fn scripts_are_not_refused(m: Progress, cmds: Seq<SexprModel>, i: nat)
    requires
        assertions_bind_once(cmds),
    ensures
        match run(m, cmds, i).1 {
            Outcome::Fails(e) => e is Semantic,
            _ => true,
        },
    decreases cmds.len() - i,
{
    if i < cmds.len() {
        let cmd = cmds[i as int];
        if let SexprModel::List(items) = cmd {
            if items.len() > 1 && items[0] == SexprModel::Atom("assert"@) {
                readable_assertions_are_not_refused(m, items);
            }
        }
        scripts_are_not_refused(step(m, cmd).0, cmds, i + 1);
    }
}

} // verus!
