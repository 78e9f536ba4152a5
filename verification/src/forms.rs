//! Which S-expressions are formulas, and how their variables are numbered.

use crate::model::{TermModel, VarId};
use crate::nnf::RawModel;
use crate::reading::{
    atom_reading, binding_readings, equation, formula_reading, formula_readings, implication,
    quantified_reading, term_reading, term_readings, unlike, unlike_later, Reading, Scope,
};
use crate::sexpr::SexprModel;
use vstd::prelude::*;

verus! {

/// Whether an S-expression is a term: a symbol, or a symbol with terms after it in a list.
pub open spec fn is_term(t: SexprModel) -> bool
    decreases t,
{
    match t {
        SexprModel::Atom(_) => true,
        SexprModel::List(items) => items.len() > 0 && items[0] is Atom && are_terms(
            items,
            items.len(),
        ),
    }
}

/// Whether the first `n` items are terms, but for the very first.
pub open spec fn are_terms(items: Seq<SexprModel>, n: nat) -> bool
    decreases items,
{
    forall|i: int| 1 <= i < n && i < items.len() ==> is_term(#[trigger] items[i])
}

/// Whether an S-expression binds a name: it is a list that starts with one.
pub open spec fn is_binding(b: SexprModel) -> bool {
    b is List && b->List_0.len() > 0 && b->List_0[0] is Atom
}

/// Whether an S-expression is a formula.
pub open spec fn is_formula(f: SexprModel) -> bool
    decreases f,
{
    match f {
        SexprModel::Atom(_) => true,
        SexprModel::List(items) => {
            &&& items.len() > 0
            &&& items[0] is Atom
            &&& {
                let head = items[0]->Atom_0;
                if head == "and"@ || head == "or"@ {
                    are_formulas(items, items.len())
                } else if head == "=>"@ {
                    items.len() > 1 && are_formulas(items, items.len())
                } else if head == "not"@ {
                    items.len() > 1 && is_formula(items[1])
                } else if head == "forall"@ || head == "exists"@ {
                    &&& items.len() > 2
                    &&& items[1] is List
                    &&& forall|i: int|
                        0 <= i < items[1]->List_0.len() ==> is_binding(
                            #[trigger] items[1]->List_0[i],
                        )
                    &&& is_formula(items[2])
                } else if head == "="@ {
                    items.len() > 2 && is_term(items[1]) && is_term(items[2])
                } else {
                    are_terms(items, items.len())
                }
            }
        },
    }
}

/// Whether the first `n` items are formulas, but for the very first.
pub open spec fn are_formulas(items: Seq<SexprModel>, n: nat) -> bool
    decreases items,
{
    forall|i: int| 1 <= i < n && i < items.len() ==> is_formula(#[trigger] items[i])
}

/// How many variables the quantifiers of a formula bind.
pub open spec fn binders(f: SexprModel) -> nat
    decreases f, 0nat,
{
    match f {
        SexprModel::Atom(_) => 0,
        SexprModel::List(items) => {
            let head = items[0]->Atom_0;
            if head == "and"@ || head == "or"@ || head == "=>"@ {
                binders_among(items, items.len())
            } else if head == "not"@ && items.len() > 1 {
                binders(items[1])
            } else if (head == "forall"@ || head == "exists"@) && items.len() > 2 {
                items[1]->List_0.len() + binders(items[2])
            } else {
                0
            }
        },
    }
}

/// How many variables the formulas after the first among the first `n` items bind.
pub open spec fn binders_among(items: Seq<SexprModel>, n: nat) -> nat
    decreases items, n,
{
    if n <= 1 || n > items.len() {
        0
    } else {
        binders_among(items, (n - 1) as nat) + binders(items[n - 1])
    }
}

proof fn terms_can_be_read(t: SexprModel, env: Map<Seq<char>, VarId>)
    ensures
        term_reading(t, env) is Read <==> is_term(t),
    decreases t, 0nat,
{
    if let SexprModel::List(items) = t {
        if items.len() > 0 {
            term_lists_can_be_read(items, items.len(), env);
        }
    }
}

proof fn term_lists_can_be_read(items: Seq<SexprModel>, n: nat, env: Map<Seq<char>, VarId>)
    requires
        n <= items.len(),
    ensures
        term_readings(items, n, env) is Read <==> are_terms(items, n),
    decreases items, n,
{
    if n > 1 {
        term_lists_can_be_read(items, (n - 1) as nat, env);
        terms_can_be_read(items[n - 1], env);
        if are_terms(items, n) {
            assert(is_term(items[n - 1]));
            assert(are_terms(items, (n - 1) as nat));
        }
        if are_terms(items, (n - 1) as nat) && is_term(items[n - 1]) {
            assert forall|i: int| 1 <= i < n && i < items.len() implies is_term(
                #[trigger] items[i],
            ) by {}
        }
    }
}

proof fn bindings_can_be_read(bindings: Seq<SexprModel>, n: nat, scope: Scope)
    requires
        n <= bindings.len(),
    ensures
        binding_readings(bindings, n, scope) is Read <==> (forall|i: int|
            0 <= i < n ==> is_binding(#[trigger] bindings[i])) && scope.next + n <= u32::MAX,
        binding_readings(bindings, n, scope) is Read ==> {
            let b = binding_readings(bindings, n, scope)->Read_0;
            &&& b.inner.next == scope.next + n
            &&& b.vars =~= numbers(scope.next, n)
        },
    decreases n,
{
    if n > 0 {
        bindings_can_be_read(bindings, (n - 1) as nat, scope);
        if forall|i: int| 0 <= i < n ==> is_binding(#[trigger] bindings[i]) {
            assert(is_binding(bindings[n - 1]));
        }
        if binding_readings(bindings, n, scope) is Read {
            assert forall|i: int| 0 <= i < n implies is_binding(#[trigger] bindings[i]) by {}
        }
    }
}

/// Exactly the formulas can be read, as long as there are numbers for their variables; and each
/// variable takes one number.
pub proof fn formulas_can_be_read(f: SexprModel, scope: Scope)
    ensures
        formula_reading(f, scope) is Read <==> is_formula(f) && scope.next + binders(f) <= u32::MAX,
        formula_reading(f, scope) is Read ==> formula_reading(f, scope)->Read_0.1.next
            == scope.next + binders(f),
    decreases f, 0nat,
{
    if let SexprModel::List(items) = f {
        if items.len() > 0 && items[0] is Atom {
            let head = items[0]->Atom_0;
            if head == "and"@ || head == "or"@ || head == "=>"@ {
                formula_lists_can_be_read(items, items.len(), scope);
                if formula_readings(items, items.len(), scope) is Read {
                    readings_len(items, items.len(), scope);
                }
                different_words();
            } else if head == "not"@ {
                if items.len() > 1 {
                    formulas_can_be_read(items[1], scope);
                }
            } else if head == "forall"@ || head == "exists"@ {
                if items.len() > 1 && items[1] is List {
                    let bindings = items[1]->List_0;
                    bindings_can_be_read(bindings, bindings.len(), scope);
                    assert(quantified_reading(items, scope) is Read ==> items.len() > 2);
                    if items.len() > 2 {
                        let b = binding_readings(bindings, bindings.len(), scope)->Read_0;
                        formulas_can_be_read(items[2], b.inner);
                    }
                } else {
                    assert(!(quantified_reading(items, scope) is Read));
                }
            } else if head == "="@ {
                if items.len() > 1 {
                    terms_can_be_read(items[1], scope.env);
                }
                if items.len() > 2 {
                    terms_can_be_read(items[2], scope.env);
                }
            } else {
                term_lists_can_be_read(items, items.len(), scope.env);
            }
        }
    }
}

proof fn different_words()
    ensures
        "and"@ != "=>"@,
        "or"@ != "=>"@,
{
    reveal_strlit("and");
    reveal_strlit("or");
    reveal_strlit("=>");
    assert("and"@[0] == 'a' && "or"@[0] == 'o' && "=>"@[0] == '=');
}

proof fn readings_len(items: Seq<SexprModel>, n: nat, scope: Scope)
    requires
        1 <= n <= items.len(),
        formula_readings(items, n, scope) is Read,
    ensures
        formula_readings(items, n, scope)->Read_0.0.len() == n - 1,
    decreases n,
{
    if n > 1 {
        readings_len(items, (n - 1) as nat, scope);
    }
}

proof fn formula_lists_can_be_read(items: Seq<SexprModel>, n: nat, scope: Scope)
    requires
        n <= items.len(),
    ensures
        formula_readings(items, n, scope) is Read <==> are_formulas(items, n) && scope.next
            + binders_among(items, n) <= u32::MAX,
        formula_readings(items, n, scope) is Read ==> formula_readings(
            items,
            n,
            scope,
        )->Read_0.1.next == scope.next + binders_among(items, n),
    decreases items, n,
{
    if n > 1 {
        formula_lists_can_be_read(items, (n - 1) as nat, scope);
        if formula_readings(items, (n - 1) as nat, scope) is Read {
            let mid = formula_readings(items, (n - 1) as nat, scope)->Read_0.1;
            formulas_can_be_read(items[n - 1], mid);
        }
        if are_formulas(items, n) {
            assert(is_formula(items[n - 1]));
            assert(are_formulas(items, (n - 1) as nat));
        }
        if are_formulas(items, (n - 1) as nat) && is_formula(items[n - 1]) {
            assert forall|i: int| 1 <= i < n && i < items.len() implies is_formula(
                #[trigger] items[i],
            ) by {}
        }
    }
}

/// The numbers from `lo` on.
pub open spec fn numbers(lo: VarId, n: nat) -> Seq<VarId> {
    Seq::new(n, |i: int| (lo + i) as VarId)
}

/// The variables that the quantifiers of a formula bind, in the order in which they are written.
pub open spec fn bound_variables(f: RawModel) -> Seq<VarId>
    decreases f, 0nat,
{
    match f {
        RawModel::Not(inner) => bound_variables(*inner),
        RawModel::And(items) => bound_variables_among(items, items.len()),
        RawModel::Or(items) => bound_variables_among(items, items.len()),
        RawModel::Implies(l, r) => bound_variables(*l) + bound_variables(*r),
        RawModel::ForAll(vars, body) => vars + bound_variables(*body),
        RawModel::Exists(vars, body) => vars + bound_variables(*body),
        _ => Seq::empty(),
    }
}

/// The variables that the first `n` of the formulas bind, in order.
pub open spec fn bound_variables_among(items: Seq<RawModel>, n: nat) -> Seq<VarId>
    decreases items, n,
{
    if n == 0 || n > items.len() {
        Seq::empty()
    } else {
        bound_variables_among(items, (n - 1) as nat) + bound_variables(items[n - 1])
    }
}

/// Variables are numbered one after the other, in the order in which they are written, from the
/// next free number on.
pub proof fn variables_are_numbered_in_order(f: SexprModel, scope: Scope)
    requires
        formula_reading(f, scope) is Read,
    ensures
        bound_variables(formula_reading(f, scope)->Read_0.0) == numbers(scope.next, binders(f)),
    decreases f, 0nat,
{
    formulas_can_be_read(f, scope);
    let read = formula_reading(f, scope)->Read_0.0;
    match f {
        SexprModel::Atom(_) => {
            assert(bound_variables(read) =~= numbers(scope.next, 0));
        },
        SexprModel::List(items) => {
            let head = items[0]->Atom_0;
            if head == "and"@ || head == "or"@ || head == "=>"@ {
                lists_are_numbered_in_order(items, items.len(), scope);
                let parts = formula_readings(items, items.len(), scope)->Read_0.0;
                different_words();
                if head == "=>"@ {
                    implication_variables(parts);
                }
            } else if head == "not"@ {
                variables_are_numbered_in_order(items[1], scope);
            } else if head == "forall"@ || head == "exists"@ {
                assert(quantified_reading(items, scope) is Read);
                let bindings = items[1]->List_0;
                bindings_can_be_read(bindings, bindings.len(), scope);
                let b = binding_readings(bindings, bindings.len(), scope)->Read_0;
                variables_are_numbered_in_order(items[2], b.inner);
                assert(bound_variables(read) =~= numbers(scope.next, binders(f)));
            } else {
                atoms_bind_nothing(head, items, scope.env);
                assert(read == atom_reading(head, items, scope.env)->Read_0);
                assert(bound_variables(read) =~= numbers(scope.next, 0));
            }
        },
    }
}

proof fn lists_are_numbered_in_order(items: Seq<SexprModel>, n: nat, scope: Scope)
    requires
        1 <= n <= items.len(),
        formula_readings(items, n, scope) is Read,
    ensures
        formula_readings(items, n, scope)->Read_0.0.len() == n - 1,
        bound_variables_among(formula_readings(items, n, scope)->Read_0.0, (n - 1) as nat)
            == numbers(scope.next, binders_among(items, n)),
    decreases items, n,
{
    let parts = formula_readings(items, n, scope)->Read_0.0;
    formula_lists_can_be_read(items, n, scope);
    if n == 1 {
        assert(bound_variables_among(parts, 0) =~= numbers(scope.next, 0));
    } else {
        lists_are_numbered_in_order(items, (n - 1) as nat, scope);
        formula_lists_can_be_read(items, (n - 1) as nat, scope);
        let (before, mid) = formula_readings(items, (n - 1) as nat, scope)->Read_0;
        variables_are_numbered_in_order(items[n - 1], mid);
        let last = formula_reading(items[n - 1], mid)->Read_0.0;
        same_variables(before, parts, (n - 2) as nat);
        assert(parts[n - 2] == last);
        assert(bound_variables_among(parts, (n - 1) as nat) =~= numbers(
            scope.next,
            binders_among(items, n),
        ));
    }
}

proof fn same_variables(a: Seq<RawModel>, b: Seq<RawModel>, n: nat)
    requires
        n <= a.len(),
        n <= b.len(),
        forall|i: int| 0 <= i < n ==> #[trigger] a[i] == b[i],
    ensures
        bound_variables_among(a, n) == bound_variables_among(b, n),
    decreases n,
{
    if n > 0 {
        same_variables(a, b, (n - 1) as nat);
        assert(a[n - 1] == b[n - 1]);
    }
}

proof fn implication_variables(parts: Seq<RawModel>)
    requires
        parts.len() > 0,
    ensures
        bound_variables(implication(parts)) == bound_variables_among(parts, parts.len()),
    decreases parts.len(),
{
    if parts.len() == 1 {
        assert(bound_variables_among(parts, 1) =~= bound_variables_among(parts, 0)
            + bound_variables(parts[0]));
        assert(bound_variables_among(parts, 0) =~= Seq::<VarId>::empty());
        assert(bound_variables_among(parts, 1) =~= bound_variables(parts[0]));
    } else {
        implication_variables(parts.skip(1));
        variables_from_front(parts, parts.len());
    }
}

proof fn variables_from_front(parts: Seq<RawModel>, n: nat)
    requires
        1 <= n <= parts.len(),
    ensures
        bound_variables_among(parts, n) == bound_variables(parts[0]) + bound_variables_among(
            parts.skip(1),
            (n - 1) as nat,
        ),
    decreases n,
{
    let rest = parts.skip(1);
    assert(bound_variables_among(parts, 0) =~= Seq::<VarId>::empty());
    assert(bound_variables_among(rest, 0) =~= Seq::<VarId>::empty());
    if n == 1 {
        assert(bound_variables_among(parts, 1) =~= bound_variables(parts[0])
            + bound_variables_among(rest, 0));
    } else {
        variables_from_front(parts, (n - 1) as nat);
        assert(rest[n - 2] == parts[n - 1]);
        assert(bound_variables_among(parts, n) =~= bound_variables(parts[0])
            + bound_variables_among(rest, (n - 1) as nat));
    }
}

proof fn atoms_bind_nothing(head: Seq<char>, items: Seq<SexprModel>, env: Map<Seq<char>, VarId>)
    requires
        atom_reading(head, items, env) is Read,
    ensures
        bound_variables(atom_reading(head, items, env)->Read_0).len() == 0,
{
    if head != "="@ && head == "distinct"@ {
        let args = term_readings(items, items.len(), env)->Read_0;
        inequations_bind_nothing(args, args.len());
        let all = unlike(args, args.len());
        nothing_bound(all, all.len());
    }
}

proof fn inequations_bind_nothing(terms: Seq<TermModel>, n: nat)
    requires
        n <= terms.len(),
    ensures
        forall|i: int|
            0 <= i < unlike(terms, n).len() ==> bound_variables(
                #[trigger] unlike(terms, n)[i],
            ).len() == 0,
    decreases n,
{
    if n > 0 {
        inequations_bind_nothing(terms, (n - 1) as nat);
        let before = unlike(terms, (n - 1) as nat);
        let row = unlike_later(terms, n - 1);
        assert forall|i: int| 0 <= i < unlike(terms, n).len() implies bound_variables(
            #[trigger] unlike(terms, n)[i],
        ).len() == 0 by {
            if i < before.len() {
                assert(unlike(terms, n)[i] == before[i]);
            } else {
                let k = i - before.len();
                let f = row[k];
                assert(unlike(terms, n)[i] == f);
                assert(*f->Not_0 == equation(terms[n - 1], terms[n + k]));
                assert(bound_variables(*f->Not_0).len() == 0);
            }
        }
    }
}

proof fn nothing_bound(items: Seq<RawModel>, n: nat)
    requires
        n <= items.len(),
        forall|i: int| 0 <= i < items.len() ==> bound_variables(#[trigger] items[i]).len() == 0,
    ensures
        bound_variables_among(items, n).len() == 0,
    decreases n,
{
    if n > 0 {
        nothing_bound(items, (n - 1) as nat);
        assert(bound_variables(items[n - 1]).len() == 0);
    }
}

/// Whether some term in `t` has the fault that `fault` explains, or, for none, lacks its head.
pub open spec fn term_has_fault(t: SexprModel, fault: Option<Seq<char>>) -> bool
    decreases t,
{
    match t {
        SexprModel::Atom(_) => false,
        SexprModel::List(items) => {
            ||| items.len() == 0 && fault is None
            ||| items.len() > 0 && items[0] is List && fault == Some("term head must be a symbol"@)
            ||| terms_have_fault(items, fault)
        },
    }
}

/// The same of the terms after the first.
pub open spec fn terms_have_fault(items: Seq<SexprModel>, fault: Option<Seq<char>>) -> bool
    decreases items,
{
    exists|i: int| 1 <= i < items.len() && term_has_fault(#[trigger] items[i], fault)
}

/// Whether a binding has the fault that `fault` explains, or, for none, is empty.
pub open spec fn binding_has_fault(b: SexprModel, fault: Option<Seq<char>>) -> bool {
    match b {
        SexprModel::Atom(_) => fault == Some("quantifier binding must be (name sort)"@),
        SexprModel::List(pair) => {
            ||| pair.len() == 0 && fault is None
            ||| pair.len() > 0 && pair[0] is List && fault == Some(
                "quantifier binding name must be a symbol"@,
            )
        },
    }
}

/// Whether some part of a formula has the fault that `fault` explains, or, for none, lacks a part
/// that has to be there.
pub open spec fn has_fault(f: SexprModel, fault: Option<Seq<char>>) -> bool
    decreases f,
{
    match f {
        SexprModel::Atom(_) => false,
        SexprModel::List(items) => {
            let head = items[0]->Atom_0;
            if items.len() == 0 {
                fault is None
            } else if items[0] is List {
                fault == Some("formula head must be a symbol"@)
            } else if head == "and"@ || head == "or"@ || head == "=>"@ {
                ||| head == "=>"@ && items.len() == 1 && fault is None
                ||| formulas_have_fault(items, fault)
            } else if head == "not"@ {
                ||| items.len() == 1 && fault is None
                ||| items.len() > 1 && has_fault(items[1], fault)
            } else if head == "forall"@ || head == "exists"@ {
                ||| items.len() < 3 && fault is None
                ||| items.len() > 1 && items[1] is Atom && fault == Some(
                    "quantifier: expected binding list"@,
                )
                ||| items.len() > 1 && items[1] is List && exists|i: int|
                    0 <= i < items[1]->List_0.len() && binding_has_fault(
                        #[trigger] items[1]->List_0[i],
                        fault,
                    )
                ||| items.len() > 2 && has_fault(items[2], fault)
            } else if head == "="@ {
                ||| items.len() < 3 && fault is None
                ||| items.len() > 1 && term_has_fault(items[1], fault)
                ||| items.len() > 2 && term_has_fault(items[2], fault)
            } else {
                terms_have_fault(items, fault)
            }
        },
    }
}

/// The same of the formulas after the first.
pub open spec fn formulas_have_fault(items: Seq<SexprModel>, fault: Option<Seq<char>>) -> bool
    decreases items,
{
    exists|i: int| 1 <= i < items.len() && has_fault(#[trigger] items[i], fault)
}

/// The fault that a reading reports.
pub open spec fn reported<T>(r: Reading<T>) -> Option<Seq<char>> {
    match r {
        Reading::Wrong(message) => Some(message),
        _ => None,
    }
}

proof fn term_fault(t: SexprModel, env: Map<Seq<char>, VarId>)
    ensures
        !(term_reading(t, env) is Read) ==> term_has_fault(t, reported(term_reading(t, env))),
    decreases t, 0nat,
{
    if let SexprModel::List(items) = t {
        if items.len() > 0 && items[0] is Atom {
            terms_fault(items, items.len(), env);
        }
    }
}

proof fn terms_fault(items: Seq<SexprModel>, n: nat, env: Map<Seq<char>, VarId>)
    requires
        n <= items.len(),
    ensures
        !(term_readings(items, n, env) is Read) ==> terms_have_fault(
            items,
            reported(term_readings(items, n, env)),
        ),
    decreases items, n,
{
    if n > 1 {
        terms_fault(items, (n - 1) as nat, env);
        term_fault(items[n - 1], env);
    }
}

proof fn bindings_fault(bindings: Seq<SexprModel>, n: nat, scope: Scope)
    requires
        n <= bindings.len(),
    ensures
        ({
            let r = binding_readings(bindings, n, scope);
            !(r is Read) ==> {
                ||| r is Stuck && scope.next + n > u32::MAX
                ||| exists|i: int|
                    0 <= i < bindings.len() && binding_has_fault(
                        #[trigger] bindings[i],
                        reported(r),
                    )
            }
        }),
    decreases n,
{
    if n > 0 {
        bindings_fault(bindings, (n - 1) as nat, scope);
        bindings_can_be_read(bindings, (n - 1) as nat, scope);
        let r = binding_readings(bindings, n, scope);
        if binding_readings(bindings, (n - 1) as nat, scope) is Read && !(r is Read) {
            if !is_binding(bindings[n - 1]) {
                assert(binding_has_fault(bindings[n - 1], reported(r)));
            }
        }
    }
}

/// What is reported of a formula that cannot be read is a fault that it has; and where a part is
/// missed, one is missing, or there are more variables than numbers.
pub proof fn reported_faults_are_there(f: SexprModel, scope: Scope)
    ensures
        ({
            let r = formula_reading(f, scope);
            !(r is Read) ==> {
                ||| has_fault(f, reported(r))
                ||| r is Stuck && scope.next + binders(f) > u32::MAX
            }
        }),
    decreases f, 0nat,
{
    if let SexprModel::List(items) = f {
        if items.len() > 0 && items[0] is Atom {
            let head = items[0]->Atom_0;
            if head == "and"@ || head == "or"@ || head == "=>"@ {
                formulas_fault(items, items.len(), scope);
                if formula_readings(items, items.len(), scope) is Read {
                    readings_len(items, items.len(), scope);
                }
            } else if head == "not"@ {
                if items.len() > 1 {
                    reported_faults_are_there(items[1], scope);
                }
            } else if head == "forall"@ || head == "exists"@ {
                let q = quantified_reading(items, scope);
                assert(items.len() < 2 ==> q is Stuck);
                if items.len() > 1 && items[1] is List {
                    let bindings = items[1]->List_0;
                    bindings_fault(bindings, bindings.len(), scope);
                    bindings_can_be_read(bindings, bindings.len(), scope);
                    if items.len() > 2 {
                        let b = binding_readings(bindings, bindings.len(), scope)->Read_0;
                        reported_faults_are_there(items[2], b.inner);
                    }
                }
            } else if head == "="@ {
                if items.len() > 1 {
                    term_fault(items[1], scope.env);
                }
                if items.len() > 2 {
                    term_fault(items[2], scope.env);
                }
            } else {
                terms_fault(items, items.len(), scope.env);
            }
        }
    }
}

proof fn formulas_fault(items: Seq<SexprModel>, n: nat, scope: Scope)
    requires
        n <= items.len(),
    ensures
        ({
            let r = formula_readings(items, n, scope);
            !(r is Read) ==> {
                ||| formulas_have_fault(items, reported(r))
                ||| r is Stuck && scope.next + binders_among(items, n) > u32::MAX
            }
        }),
    decreases items, n,
{
    if n > 1 {
        formulas_fault(items, (n - 1) as nat, scope);
        if formula_readings(items, (n - 1) as nat, scope) is Read {
            formula_lists_can_be_read(items, (n - 1) as nat, scope);
            let mid = formula_readings(items, (n - 1) as nat, scope)->Read_0.1;
            reported_faults_are_there(items[n - 1], mid);
        }
    }
}

} // verus!
