//! What the S-expressions of a script mean, said of the S-expressions themselves.
//!
//! A structure and elements for the names in scope settle whether an S-expression holds. What is
//! read from it holds in just the same cases.

use crate::equivalence::{assigned_all, raw_satisfies};
use crate::model::{TermModel, VarId};
use crate::naming::{all_bind_once, binds_once, bound_name, readings_respect_scope};
use crate::nnf::RawModel;
use crate::reading::{
    atom_reading, binding_readings, equation, formula_reading, formula_readings, implication,
    quantified_reading, term_reading, term_readings, unlike, unlike_later, Reading, Scope,
};
use crate::scripts::{binding_numbers, readings_number_binders};
use crate::semantics::{assigned, value, values, Structure};
use crate::sexpr::SexprModel;
use crate::verdicts::equates;
use vstd::prelude::*;

verus! {

/// The element that a term denotes, where `names` gives the elements for the names in scope. Any
/// other symbol is a constant or a function of the structure.
pub open spec fn term_value<D>(s: Structure<D>, names: Map<Seq<char>, D>, t: SexprModel) -> D
    decreases t,
{
    match t {
        SexprModel::Atom(name) => if names.contains_key(name) {
            names[name]
        } else {
            (s.fun)(name, Seq::empty())
        },
        SexprModel::List(items) => if items.len() > 0 && items[0] is Atom {
            (s.fun)(items[0]->Atom_0, argument_values(s, names, items))
        } else {
            arbitrary()
        },
    }
}

/// The elements that the terms after the first denote.
pub open spec fn argument_values<D>(
    s: Structure<D>,
    names: Map<Seq<char>, D>,
    items: Seq<SexprModel>,
) -> Seq<D>
    decreases items,
{
    Seq::new(
        (items.len() - 1) as nat,
        |i: int|
            if 0 <= i < items.len() - 1 {
                term_value(s, names, items[i + 1])
            } else {
                arbitrary()
            },
    )
}

/// The names with the elements `ds` for those of the first `n` bindings.
pub open spec fn names_with<D>(
    names: Map<Seq<char>, D>,
    bindings: Seq<SexprModel>,
    ds: Seq<D>,
    n: nat,
) -> Map<Seq<char>, D>
    decreases n,
{
    if n == 0 {
        names
    } else {
        names_with(names, bindings, ds, (n - 1) as nat).insert(
            bound_name(bindings[n - 1])->0,
            ds[n - 1],
        )
    }
}

/// Whether a formula holds in a structure, where `names` gives the elements for the names in scope:
/// a conjunction if all its parts do, a disjunction if one does, a negation if its part does not,
/// an implication if one of its premises fails or its conclusion holds, an equation if both sides
/// denote the same, `distinct` if no two terms do, and a quantifier if its body does for all, or
/// for some, elements under the names that it binds.
pub open spec fn holds<D>(s: Structure<D>, names: Map<Seq<char>, D>, f: SexprModel) -> bool
    decreases f,
{
    match f {
        SexprModel::Atom(name) => name == "true"@ || (name != "false"@ && (s.rel)(
            name,
            Seq::empty(),
        )),
        SexprModel::List(items) => {
            let head = items[0]->Atom_0;
            let last = items.len() - 1;
            if head == "and"@ {
                forall|i: int| 1 <= i < items.len() ==> holds(s, names, #[trigger] items[i])
            } else if head == "or"@ {
                exists|i: int| 1 <= i < items.len() && holds(s, names, #[trigger] items[i])
            } else if head == "=>"@ {
                ||| exists|i: int| 1 <= i < last && !holds(s, names, #[trigger] items[i])
                ||| last > 0 && holds(s, names, items[last])
            } else if head == "not"@ {
                items.len() > 1 && !holds(s, names, items[1])
            } else if head == "forall"@ {
                items.len() > 2 && forall|ds: Seq<D>|
                    ds.len() == items[1]->List_0.len() && s.covers(ds) ==> holds(
                        s,
                        #[trigger] names_with(names, items[1]->List_0, ds, ds.len()),
                        items[2],
                    )
            } else if head == "exists"@ {
                items.len() > 2 && exists|ds: Seq<D>|
                    ds.len() == items[1]->List_0.len() && s.covers(ds) && holds(
                        s,
                        #[trigger] names_with(names, items[1]->List_0, ds, ds.len()),
                        items[2],
                    )
            } else if head == "="@ {
                items.len() > 2 && term_value(s, names, items[1]) == term_value(s, names, items[2])
            } else if head == "distinct"@ {
                forall|i: int, j: int|
                    1 <= i < j < items.len() ==> term_value(s, names, #[trigger] items[i])
                        != term_value(s, names, #[trigger] items[j])
            } else {
                (s.rel)(head, argument_values(s, names, items))
            }
        },
    }
}

/// Whether the elements for the names are those that the assignment gives to their variables, and
/// all the variables in scope are numbered below the next.
pub open spec fn agrees<D>(
    names: Map<Seq<char>, D>,
    scope: Scope,
    env: spec_fn(VarId) -> D,
) -> bool {
    &&& forall|name: Seq<char>| #[trigger]
        names.contains_key(name) == scope.env.contains_key(name)
    &&& forall|name: Seq<char>| #[trigger]
        scope.env.contains_key(name) ==> {
            &&& names[name] == env(scope.env[name])
            &&& scope.env[name] < scope.next
        }
}

proof fn term_meaning<D>(
    t: SexprModel,
    scope: Scope,
    s: Structure<D>,
    names: Map<Seq<char>, D>,
    env: spec_fn(VarId) -> D,
)
    requires
        term_reading(t, scope.env) is Read,
        agrees(names, scope, env),
    ensures
        value(s, env, term_reading(t, scope.env)->Read_0) == term_value(s, names, t),
    decreases t, 0nat,
{
    match t {
        SexprModel::Atom(name) => {
            assert(names.contains_key(name) == scope.env.contains_key(name));
            assert(values(s, env, Seq::<TermModel>::empty()) =~= Seq::<D>::empty());
        },
        SexprModel::List(items) => {
            terms_meaning(items, items.len(), scope, s, names, env);
            let args = term_readings(items, items.len(), scope.env)->Read_0;
            assert(values(s, env, args) =~= argument_values(s, names, items));
        },
    }
}

proof fn terms_meaning<D>(
    items: Seq<SexprModel>,
    n: nat,
    scope: Scope,
    s: Structure<D>,
    names: Map<Seq<char>, D>,
    env: spec_fn(VarId) -> D,
)
    requires
        1 <= n <= items.len(),
        term_readings(items, n, scope.env) is Read,
        agrees(names, scope, env),
    ensures
        term_readings(items, n, scope.env)->Read_0.len() == n - 1,
        forall|i: int|
            0 <= i < n - 1 ==> value(
                s,
                env,
                #[trigger] term_readings(items, n, scope.env)->Read_0[i],
            ) == term_value(s, names, items[i + 1]),
    decreases items, n,
{
    if n > 1 {
        terms_meaning(items, (n - 1) as nat, scope, s, names, env);
        term_meaning(items[n - 1], scope, s, names, env);
    }
}

/// An implication holds if one of its premises fails or its conclusion holds.
proof fn implication_meaning<D>(
    s: Structure<D>,
    env: spec_fn(VarId) -> D,
    parts: Seq<RawModel>,
)
    requires
        parts.len() > 0,
    ensures
        raw_satisfies(s, env, implication(parts)) == ((exists|i: int|
            0 <= i < parts.len() - 1 && !raw_satisfies(s, env, #[trigger] parts[i]))
            || raw_satisfies(s, env, parts.last())),
    decreases parts.len(),
{
    if parts.len() > 1 {
        let rest = parts.skip(1);
        implication_meaning(s, env, rest);
        assert(rest.last() == parts.last());
        if exists|i: int| 0 <= i < rest.len() - 1 && !raw_satisfies(s, env, #[trigger] rest[i]) {
            let i = choose|i: int|
                0 <= i < rest.len() - 1 && !raw_satisfies(s, env, #[trigger] rest[i]);
            assert(parts[i + 1] == rest[i]);
        }
        if exists|i: int| 0 <= i < parts.len() - 1 && !raw_satisfies(s, env, #[trigger] parts[i]) {
            let i = choose|i: int|
                0 <= i < parts.len() - 1 && !raw_satisfies(s, env, #[trigger] parts[i]);
            if i > 0 {
                assert(rest[i - 1] == parts[i]);
            }
        }
    }
}

/// The inequations hold if no two of the terms denote the same.
proof fn unlike_meaning<D>(
    s: Structure<D>,
    env: spec_fn(VarId) -> D,
    terms: Seq<TermModel>,
    n: nat,
)
    requires
        equates(s),
        n <= terms.len(),
    ensures
        (forall|k: int|
            0 <= k < unlike(terms, n).len() ==> raw_satisfies(
                s,
                env,
                #[trigger] unlike(terms, n)[k],
            )) == (forall|i: int, j: int|
            0 <= i < n && i < j < terms.len() ==> value(s, env, #[trigger] terms[i]) != value(
                s,
                env,
                #[trigger] terms[j],
            )),
    decreases n,
{
    if n > 0 {
        unlike_meaning(s, env, terms, (n - 1) as nat);
        let before = unlike(terms, (n - 1) as nat);
        let row = unlike_later(terms, n - 1);
        let all = unlike(terms, n);
        assert forall|k: int| 0 <= k < row.len() implies raw_satisfies(s, env, #[trigger] row[k])
            == (value(s, env, terms[n - 1]) != value(s, env, terms[n + k])) by {
            equation_meaning(s, env, terms[n - 1], terms[n + k]);
            assert(row[k] == RawModel::Not(Box::new(equation(terms[n - 1], terms[n + k]))));
        }
        if forall|k: int| 0 <= k < all.len() ==> raw_satisfies(s, env, #[trigger] all[k]) {
            assert forall|k: int| 0 <= k < before.len() implies raw_satisfies(
                s,
                env,
                #[trigger] before[k],
            ) by {
                assert(all[k] == before[k]);
            }
            assert forall|i: int, j: int| 0 <= i < n && i < j < terms.len() implies value(
                s,
                env,
                #[trigger] terms[i],
            ) != value(s, env, #[trigger] terms[j]) by {
                if i == n - 1 {
                    assert(all[before.len() + (j - n)] == row[j - n]);
                    assert(raw_satisfies(s, env, row[j - n]));
                }
            }
        }
        if forall|i: int, j: int|
            0 <= i < n && i < j < terms.len() ==> value(s, env, #[trigger] terms[i]) != value(
                s,
                env,
                #[trigger] terms[j],
            ) {
            assert forall|k: int| 0 <= k < all.len() implies raw_satisfies(
                s,
                env,
                #[trigger] all[k],
            ) by {
                if k < before.len() {
                    assert(all[k] == before[k]);
                } else {
                    assert(all[k] == row[k - before.len()]);
                    assert(value(s, env, terms[n - 1]) != value(
                        s,
                        env,
                        terms[n + (k - before.len())],
                    ));
                }
            }
        }
    }
}

proof fn equation_meaning<D>(
    s: Structure<D>,
    env: spec_fn(VarId) -> D,
    l: TermModel,
    r: TermModel,
)
    requires
        equates(s),
    ensures
        raw_satisfies(s, env, equation(l, r)) == (value(s, env, l) == value(s, env, r)),
{
    let args = values(s, env, seq![l, r]);
    assert(args[0] == value(s, env, l));
    assert(args[1] == value(s, env, r));
}

/// Consecutive variables get the elements in order, and earlier ones keep theirs.
proof fn assigned_in_order<D>(
    env: spec_fn(VarId) -> D,
    vars: Seq<VarId>,
    ds: Seq<D>,
    base: int,
)
    requires
        ds.len() == vars.len(),
        forall|i: int| 0 <= i < vars.len() ==> #[trigger] vars[i] == base + i,
    ensures
        forall|i: int|
            0 <= i < vars.len() ==> assigned_all(env, vars, ds)(#[trigger] vars[i]) == ds[i],
        forall|x: VarId| x < base ==> #[trigger] assigned_all(env, vars, ds)(x) == env(x),
    decreases vars.len(),
{
    if vars.len() > 0 {
        let inner = assigned(env, vars[0], ds[0]);
        let rest = vars.skip(1);
        let later = ds.skip(1);
        assert forall|i: int| 0 <= i < rest.len() implies #[trigger] rest[i] == base + 1 + i by {
            assert(rest[i] == vars[i + 1]);
        }
        assigned_in_order(inner, rest, later, base + 1);
        let whole = assigned_all(env, vars, ds);
        assert(whole == assigned_all(inner, rest, later));
        assert(vars[0] == base);
        assert forall|x: VarId| x < base implies #[trigger] whole(x) == env(x) by {
            assert(assigned_all(inner, rest, later)(x) == inner(x));
        }
        assert forall|i: int| 0 <= i < vars.len() implies assigned_all(env, vars, ds)(
            #[trigger] vars[i],
        ) == ds[i] by {
            if i > 0 {
                assert(rest[i - 1] == vars[i]);
                assert(later[i - 1] == ds[i]);
            } else {
                assert(assigned_all(inner, rest, later)(vars[0]) == inner(vars[0]));
            }
        }
    }
}

/// Inside a quantifier, names and variables still agree.
proof fn bindings_agree<D>(
    bindings: Seq<SexprModel>,
    n: nat,
    scope: Scope,
    names: Map<Seq<char>, D>,
    env: spec_fn(VarId) -> D,
    inner: spec_fn(VarId) -> D,
    ds: Seq<D>,
)
    requires
        n <= bindings.len(),
        ds.len() == bindings.len(),
        binding_readings(bindings, n, scope) is Read,
        agrees(names, scope, env),
        forall|x: VarId| x < scope.next ==> #[trigger] inner(x) == env(x),
        forall|i: int, x: VarId|
            0 <= i < n && x == scope.next + i ==> #[trigger] inner(x) == #[trigger] ds[i],
    ensures
        binding_readings(bindings, n, scope)->Read_0.inner.next == scope.next + n,
        agrees(
            names_with(names, bindings, ds, n),
            binding_readings(bindings, n, scope)->Read_0.inner,
            inner,
        ),
    decreases n,
{
    if n > 0 {
        bindings_agree(bindings, (n - 1) as nat, scope, names, env, inner, ds);
        let before = binding_readings(bindings, (n - 1) as nat, scope)->Read_0;
        let b = binding_readings(bindings, n, scope)->Read_0;
        let v = before.inner.next;
        assert(v == scope.next + (n - 1));
        assert(inner(v) == ds[n - 1]);
    }
}

/// Reading keeps the meaning: in every structure in which `=` means equality, what is read holds
/// under an assignment exactly if the S-expression holds with the same elements for the names in
/// scope.
pub proof fn reading_keeps_meaning<D>(
    f: SexprModel,
    scope: Scope,
    s: Structure<D>,
    names: Map<Seq<char>, D>,
    env: spec_fn(VarId) -> D,
)
    requires
        formula_reading(f, scope) is Read,
        binds_once(f),
        equates(s),
        agrees(names, scope, env),
    ensures
        raw_satisfies(s, env, formula_reading(f, scope)->Read_0.0) == holds(s, names, f),
    decreases f, 0nat,
{
    let read = formula_reading(f, scope)->Read_0.0;
    match f {
        SexprModel::Atom(name) => {
            assert(values(s, env, Seq::<TermModel>::empty()) =~= Seq::<D>::empty());
            reveal_strlit("true");
            reveal_strlit("false");
            assert("true"@.len() != "false"@.len());
        },
        SexprModel::List(items) => {
            let head = items[0]->Atom_0;
            words_differ();
            assert(all_bind_once(items));
            if head == "and"@ || head == "or"@ || head == "=>"@ {
                readings_meaning(items, items.len(), scope, s, names, env);
                let parts = formula_readings(items, items.len(), scope)->Read_0.0;
                assert forall|i: int| 1 <= i < items.len() implies holds(
                    s,
                    names,
                    #[trigger] items[i],
                ) == raw_satisfies(s, env, parts[i - 1]) by {
                    assert(raw_satisfies(s, env, parts[i - 1]) == holds(s, names, items[i]));
                }
                if head == "and"@ {
                    junction_meaning(s, env, names, items, parts);
                } else if head == "or"@ {
                    junction_meaning(s, env, names, items, parts);
                } else {
                    implication_meaning(s, env, parts);
                    premises_meaning(s, env, names, items, parts);
                }
            } else if head == "not"@ {
                assert(binds_once(items[1]));
                reading_keeps_meaning(items[1], scope, s, names, env);
            } else if head == "forall"@ || head == "exists"@ {
                assert(quantified_reading(items, scope) is Read);
                quantified_meaning(items, scope, s, names, env);
            } else {
                atom_meaning(head, items, scope, s, names, env);
            }
        },
    }
}

/// The words of the language are different words.
proof fn words_differ()
    ensures
        "and"@ != "or"@,
        "and"@ != "=>"@,
        "or"@ != "=>"@,
        "forall"@ != "and"@,
        "forall"@ != "not"@,
        "not"@ != "and"@,
        "forall"@ != "exists"@,
        "=>"@ != "="@,
{
    reveal_strlit("and");
    reveal_strlit("or");
    reveal_strlit("not");
    reveal_strlit("=>");
    reveal_strlit("=");
    reveal_strlit("forall");
    reveal_strlit("exists");
    assert("and"@[0] == 'a' && "not"@[0] == 'n' && "forall"@[0] == 'f' && "exists"@[0] == 'e');
    assert("and"@.len() == 3 && "or"@.len() == 2 && "=>"@.len() == 2 && "="@.len() == 1);
    assert("or"@[0] == 'o' && "=>"@[0] == '=');
}

proof fn junction_meaning<D>(
    s: Structure<D>,
    env: spec_fn(VarId) -> D,
    names: Map<Seq<char>, D>,
    items: Seq<SexprModel>,
    parts: Seq<RawModel>,
)
    requires
        items.len() > 0,
        parts.len() == items.len() - 1,
        forall|i: int|
            1 <= i < items.len() ==> holds(s, names, #[trigger] items[i]) == raw_satisfies(
                s,
                env,
                parts[i - 1],
            ),
    ensures
        raw_satisfies(s, env, RawModel::And(parts)) == (forall|i: int|
            1 <= i < items.len() ==> holds(s, names, #[trigger] items[i])),
        raw_satisfies(s, env, RawModel::Or(parts)) == (exists|i: int|
            1 <= i < items.len() && holds(s, names, #[trigger] items[i])),
{
    let conj = RawModel::And(parts);
    let disj = RawModel::Or(parts);
    assert(conj->And_0 == parts && disj->Or_0 == parts);
    assert forall|k: int| 0 <= k < parts.len() implies raw_satisfies(s, env, #[trigger] parts[k])
        == holds(s, names, items[k + 1]) by {}
    if raw_satisfies(s, env, conj) {
        assert forall|i: int| 1 <= i < items.len() implies holds(s, names, #[trigger] items[i]) by {
            assert(raw_satisfies(s, env, parts[i - 1]));
        }
    }
    if exists|i: int| 1 <= i < items.len() && holds(s, names, #[trigger] items[i]) {
        let i = choose|i: int| 1 <= i < items.len() && holds(s, names, #[trigger] items[i]);
        assert(raw_satisfies(s, env, parts[i - 1]));
    }
    if raw_satisfies(s, env, disj) {
        let k = choose|k: int|
            0 <= k < parts.len() && raw_satisfies(s, env, #[trigger] parts[k]);
        assert(holds(s, names, items[k + 1]));
    }
}

proof fn premises_meaning<D>(
    s: Structure<D>,
    env: spec_fn(VarId) -> D,
    names: Map<Seq<char>, D>,
    items: Seq<SexprModel>,
    parts: Seq<RawModel>,
)
    requires
        items.len() > 1,
        parts.len() == items.len() - 1,
        forall|i: int|
            1 <= i < items.len() ==> holds(s, names, #[trigger] items[i]) == raw_satisfies(
                s,
                env,
                parts[i - 1],
            ),
    ensures
        (exists|k: int| 0 <= k < parts.len() - 1 && !raw_satisfies(s, env, #[trigger] parts[k]))
            == (exists|i: int|
            1 <= i < items.len() - 1 && !holds(s, names, #[trigger] items[i])),
        raw_satisfies(s, env, parts.last()) == holds(s, names, items[items.len() - 1]),
{
    if exists|k: int| 0 <= k < parts.len() - 1 && !raw_satisfies(s, env, #[trigger] parts[k]) {
        let k = choose|k: int|
            0 <= k < parts.len() - 1 && !raw_satisfies(s, env, #[trigger] parts[k]);
        assert(!holds(s, names, items[k + 1]));
    }
    if exists|i: int| 1 <= i < items.len() - 1 && !holds(s, names, #[trigger] items[i]) {
        let i = choose|i: int| 1 <= i < items.len() - 1 && !holds(s, names, #[trigger] items[i]);
        assert(!raw_satisfies(s, env, parts[i - 1]));
    }
}

proof fn readings_meaning<D>(
    items: Seq<SexprModel>,
    n: nat,
    scope: Scope,
    s: Structure<D>,
    names: Map<Seq<char>, D>,
    env: spec_fn(VarId) -> D,
)
    requires
        1 <= n <= items.len(),
        formula_readings(items, n, scope) is Read,
        all_bind_once(items),
        equates(s),
        agrees(names, scope, env),
    ensures
        formula_readings(items, n, scope)->Read_0.0.len() == n - 1,
        forall|i: int|
            0 <= i < n - 1 ==> raw_satisfies(
                s,
                env,
                #[trigger] formula_readings(items, n, scope)->Read_0.0[i],
            ) == holds(s, names, items[i + 1]),
    decreases items, n,
{
    if n > 1 {
        readings_meaning(items, (n - 1) as nat, scope, s, names, env);
        readings_respect_scope(items, (n - 1) as nat, scope);
        readings_number_binders(items, (n - 1) as nat, scope);
        let mid = formula_readings(items, (n - 1) as nat, scope)->Read_0.1;
        assert(binds_once(items[n - 1]));
        assert(agrees(names, mid, env));
        reading_keeps_meaning(items[n - 1], mid, s, names, env);
    }
}

proof fn quantified_meaning<D>(
    items: Seq<SexprModel>,
    scope: Scope,
    s: Structure<D>,
    names: Map<Seq<char>, D>,
    env: spec_fn(VarId) -> D,
)
    requires
        quantified_reading(items, scope) is Read,
        all_bind_once(items),
        equates(s),
        agrees(names, scope, env),
    ensures
        ({
            let (vars, body, _) = quantified_reading(items, scope)->Read_0;
            &&& raw_satisfies(s, env, RawModel::ForAll(vars, Box::new(body))) == (forall|
                ds: Seq<D>,
            |
                ds.len() == items[1]->List_0.len() && s.covers(ds) ==> holds(
                    s,
                    #[trigger] names_with(names, items[1]->List_0, ds, ds.len()),
                    items[2],
                ))
            &&& raw_satisfies(s, env, RawModel::Exists(vars, Box::new(body))) == (exists|
                ds: Seq<D>,
            |
                ds.len() == items[1]->List_0.len() && s.covers(ds) && holds(
                    s,
                    #[trigger] names_with(names, items[1]->List_0, ds, ds.len()),
                    items[2],
                ))
        }),
    decreases items, 0nat,
{
    let bindings = items[1]->List_0;
    let b = binding_readings(bindings, bindings.len(), scope)->Read_0;
    let (vars, body, _) = quantified_reading(items, scope)->Read_0;
    let all = RawModel::ForAll(vars, Box::new(body));
    let some = RawModel::Exists(vars, Box::new(body));
    binding_numbers(bindings, bindings.len(), scope);
    assert(binds_once(items[2]));
    assert forall|ds: Seq<D>| ds.len() == bindings.len() implies raw_satisfies(
        s,
        #[trigger] assigned_all(env, vars, ds),
        body,
    ) == holds(s, names_with(names, bindings, ds, ds.len()), items[2]) by {
        let inner = assigned_all(env, vars, ds);
        assigned_in_order(env, vars, ds, scope.next as int);
        assert forall|i: int, x: VarId|
            0 <= i < bindings.len() && x == scope.next + i implies #[trigger] inner(x)
            == #[trigger] ds[i] by {
            assert(vars[i] == x);
        }
        bindings_agree(bindings, bindings.len(), scope, names, env, inner, ds);
        reading_keeps_meaning(
            items[2],
            b.inner,
            s,
            names_with(names, bindings, ds, ds.len()),
            inner,
        );
    }
    assert forall|ds: Seq<D>| ds.len() == bindings.len() implies holds(
        s,
        #[trigger] names_with(names, bindings, ds, ds.len()),
        items[2],
    ) == raw_satisfies(s, assigned_all(env, vars, ds), body) by {
        assert(raw_satisfies(s, assigned_all(env, vars, ds), body) == holds(
            s,
            names_with(names, bindings, ds, ds.len()),
            items[2],
        ));
    }
    assert(all->ForAll_0 == vars && some->Exists_0 == vars);
    if raw_satisfies(s, env, all) {
        assert forall|ds: Seq<D>| ds.len() == bindings.len() && s.covers(ds) implies holds(
            s,
            #[trigger] names_with(names, bindings, ds, ds.len()),
            items[2],
        ) by {
            assert(raw_satisfies(s, assigned_all(env, vars, ds), body));
        }
    }
    if exists|ds: Seq<D>|
        ds.len() == bindings.len() && s.covers(ds) && holds(
            s,
            #[trigger] names_with(names, bindings, ds, ds.len()),
            items[2],
        ) {
        let ds = choose|ds: Seq<D>|
            ds.len() == bindings.len() && s.covers(ds) && holds(
                s,
                #[trigger] names_with(names, bindings, ds, ds.len()),
                items[2],
            );
        assert(raw_satisfies(s, assigned_all(env, vars, ds), body));
    }
    if raw_satisfies(s, env, some) {
        let ds = choose|ds: Seq<D>|
            ds.len() == vars.len() && s.covers(ds) && raw_satisfies(
                s,
                #[trigger] assigned_all(env, vars, ds),
                body,
            );
        assert(holds(s, names_with(names, bindings, ds, ds.len()), items[2]));
    }
}

proof fn atom_meaning<D>(
    head: Seq<char>,
    items: Seq<SexprModel>,
    scope: Scope,
    s: Structure<D>,
    names: Map<Seq<char>, D>,
    env: spec_fn(VarId) -> D,
)
    requires
        items.len() > 0,
        items[0] == SexprModel::Atom(head),
        atom_reading(head, items, scope.env) is Read,
        head != "and"@,
        head != "or"@,
        head != "=>"@,
        head != "not"@,
        head != "forall"@,
        head != "exists"@,
        equates(s),
        agrees(names, scope, env),
    ensures
        raw_satisfies(s, env, atom_reading(head, items, scope.env)->Read_0) == holds(
            s,
            names,
            SexprModel::List(items),
        ),
{
    let f = SexprModel::List(items);
    assert(f->List_0 == items);
    if head == "="@ {
        term_meaning(items[1], scope, s, names, env);
        term_meaning(items[2], scope, s, names, env);
        equation_meaning(
            s,
            env,
            term_reading(items[1], scope.env)->Read_0,
            term_reading(items[2], scope.env)->Read_0,
        );
    } else {
        terms_meaning(items, items.len(), scope, s, names, env);
        let args = term_readings(items, items.len(), scope.env)->Read_0;
        if head == "distinct"@ {
            unlike_meaning(s, env, args, args.len());
            let g = RawModel::And(unlike(args, args.len()));
            assert(g->And_0 == unlike(args, args.len()));
            assert forall|i: int| 1 <= i < items.len() implies term_value(
                s,
                names,
                #[trigger] items[i],
            ) == value(s, env, args[i - 1]) by {
                assert(value(s, env, args[i - 1]) == term_value(s, names, items[i]));
            }
            if holds(s, names, f) {
                assert forall|i: int, j: int| 0 <= i < args.len() && i < j < args.len() implies value(
                    s,
                    env,
                    #[trigger] args[i],
                ) != value(s, env, #[trigger] args[j]) by {
                    assert(term_value(s, names, items[i + 1]) != term_value(
                        s,
                        names,
                        items[j + 1],
                    ));
                }
            }
            if raw_satisfies(s, env, g) {
                assert forall|i: int, j: int| 1 <= i < j < items.len() implies term_value(
                    s,
                    names,
                    #[trigger] items[i],
                ) != term_value(s, names, #[trigger] items[j]) by {
                    assert(value(s, env, args[i - 1]) != value(s, env, args[j - 1]));
                }
            }
        } else {
            assert(values(s, env, args) =~= argument_values(s, names, items));
        }
    }
}

} // verus!
