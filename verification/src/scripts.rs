//! What the answers to a script say about the formulas in it.

use crate::equivalence::{nnf_keeps_meaning, raw_satisfies};
use crate::model::{FormulaModel, VarId};
use crate::nnf::{bind, join, nnf, nnfs, RawModel};
use crate::reading::{
    binding_readings, formula_reading, formula_readings, implication, quantified_reading,
    term_readings, unlike, unlike_later, Reading, Scope,
};
use crate::semantics::{satisfies, Structure};
use crate::sexpr::SexprModel;
use crate::smt2::{
    assertion, entered, leaving, run, scope_count, starting, step, InterpModel, Progress,
};
use crate::soundness::{clear_of, well_scoped};
use crate::translation::clear_of_constants;
use crate::verdicts::{
    answers_are_right, equates, formulas_after, happened, holds_all,
    in_order, satisfiable, self_contained, solver_after, Event,
};
use crate::z3_api::{AstModel, StackModel};
use crate::z3_bridge::{right_answer, SolverModel};
use vstd::prelude::*;
use z3::SatResult;

verus! {

/// Whether the quantifiers of a formula take consecutive variables from `lo` on, and those inside
/// a quantifier later ones.
pub open spec fn binders_from(f: RawModel, lo: int) -> bool
    decreases f,
{
    match f {
        RawModel::Pred { .. } | RawModel::True | RawModel::False => true,
        RawModel::Not(inner) => binders_from(*inner, lo),
        RawModel::And(items) => all_binders_from(items, lo),
        RawModel::Or(items) => all_binders_from(items, lo),
        RawModel::Implies(l, r) => binders_from(*l, lo) && binders_from(*r, lo),
        RawModel::ForAll(vars, body) | RawModel::Exists(vars, body) => {
            &&& consecutive_from(vars, lo)
            &&& binders_from(*body, after_binders(vars, lo))
        },
    }
}

/// The same of several formulas.
pub open spec fn all_binders_from(items: Seq<RawModel>, lo: int) -> bool
    decreases items,
{
    forall|i: int| 0 <= i < items.len() ==> binders_from(#[trigger] items[i], lo)
}

/// Whether the variables are consecutive and start at `lo` or later.
pub open spec fn consecutive_from(vars: Seq<VarId>, lo: int) -> bool {
    forall|i: int| 0 <= i < vars.len() ==> #[trigger] vars[i] == vars[0] + i && vars[0] >= lo
}

/// The variable after the last of them.
pub open spec fn after_binders(vars: Seq<VarId>, lo: int) -> int {
    if vars.len() == 0 {
        lo
    } else {
        vars[0] + vars.len()
    }
}

proof fn binders_from_earlier(f: RawModel, lo: int, earlier: int)
    requires
        binders_from(f, lo),
        earlier <= lo,
    ensures
        binders_from(f, earlier),
    decreases f,
{
    match f {
        RawModel::Pred { .. } | RawModel::True | RawModel::False => {},
        RawModel::Not(inner) => {
            binders_from_earlier(*inner, lo, earlier);
        },
        RawModel::And(items) => {
            all_binders_from_earlier(items, lo, earlier);
        },
        RawModel::Or(items) => {
            all_binders_from_earlier(items, lo, earlier);
        },
        RawModel::Implies(l, r) => {
            binders_from_earlier(*l, lo, earlier);
            binders_from_earlier(*r, lo, earlier);
        },
        RawModel::ForAll(vars, body) | RawModel::Exists(vars, body) => {
            binders_from_earlier(*body, after_binders(vars, lo), after_binders(vars, earlier));
        },
    }
}

proof fn all_binders_from_earlier(items: Seq<RawModel>, lo: int, earlier: int)
    requires
        all_binders_from(items, lo),
        earlier <= lo,
    ensures
        all_binders_from(items, earlier),
    decreases items,
{
    assert forall|i: int| 0 <= i < items.len() implies binders_from(
        #[trigger] items[i],
        earlier,
    ) by {
        binders_from_earlier(items[i], lo, earlier);
    }
}

pub proof fn binding_numbers(bindings: Seq<SexprModel>, n: nat, scope: Scope)
    requires
        n <= bindings.len(),
        binding_readings(bindings, n, scope) is Read,
    ensures
        ({
            let b = binding_readings(bindings, n, scope)->Read_0;
            &&& b.vars.len() == n
            &&& b.inner.next == scope.next + n
            &&& forall|i: int| 0 <= i < n ==> #[trigger] b.vars[i] == scope.next + i
        }),
    decreases n,
{
    if n > 0 {
        binding_numbers(bindings, (n - 1) as nat, scope);
    }
}

/// What is read takes its variables in order, from the next free number on.
pub proof fn reading_numbers_binders(s: SexprModel, scope: Scope)
    requires
        formula_reading(s, scope) is Read,
    ensures
        binders_from(formula_reading(s, scope)->Read_0.0, scope.next as int),
        formula_reading(s, scope)->Read_0.1.next >= scope.next,
    decreases s, 0nat,
{
    if let SexprModel::List(items) = s {
        if let SexprModel::Atom(head) = items[0] {
            let f = formula_reading(s, scope)->Read_0.0;
            if head == "and"@ || head == "or"@ || head == "=>"@ {
                readings_number_binders(items, items.len(), scope);
                if head != "and"@ && head != "or"@ {
                    let parts = formula_readings(items, items.len(), scope)->Read_0.0;
                    implication_binders(parts, scope.next as int);
                }
            } else if head == "not"@ {
                reading_numbers_binders(items[1], scope);
            } else if head == "forall"@ || head == "exists"@ {
                assert(quantified_reading(items, scope) is Read);
                let bindings = items[1]->List_0;
                let b = binding_readings(bindings, bindings.len(), scope)->Read_0;
                binding_numbers(bindings, bindings.len(), scope);
                reading_numbers_binders(items[2], b.inner);
                assert(after_binders(b.vars, scope.next as int) == b.inner.next);
            } else if head == "distinct"@ {
                reveal_strlit("distinct");
                reveal_strlit("=");
                assert("distinct"@.len() != "="@.len());
                let terms = term_readings(items, items.len(), scope.env)->Read_0;
                unlike_binders(terms, terms.len(), scope.next as int);
            }
        }
    }
}

/// The same of several formulas.
pub proof fn readings_number_binders(items: Seq<SexprModel>, n: nat, scope: Scope)
    requires
        n <= items.len(),
        formula_readings(items, n, scope) is Read,
    ensures
        all_binders_from(formula_readings(items, n, scope)->Read_0.0, scope.next as int),
        formula_readings(items, n, scope)->Read_0.1.next >= scope.next,
    decreases items, n,
{
    if n > 1 {
        readings_number_binders(items, (n - 1) as nat, scope);
        let mid = formula_readings(items, (n - 1) as nat, scope)->Read_0.1;
        reading_numbers_binders(items[n - 1], mid);
        binders_from_earlier(
            formula_reading(items[n - 1], mid)->Read_0.0,
            mid.next as int,
            scope.next as int,
        );
    }
}

proof fn implication_binders(parts: Seq<RawModel>, lo: int)
    requires
        parts.len() > 0,
        all_binders_from(parts, lo),
    ensures
        binders_from(implication(parts), lo),
    decreases parts.len(),
{
    if parts.len() > 1 {
        assert forall|i: int| 0 <= i < parts.skip(1).len() implies binders_from(
            #[trigger] parts.skip(1)[i],
            lo,
        ) by {
            assert(parts.skip(1)[i] == parts[i + 1]);
        }
        implication_binders(parts.skip(1), lo);
    }
    assert(binders_from(parts[0], lo));
}

proof fn unlike_binders(terms: Seq<crate::model::TermModel>, n: nat, lo: int)
    requires
        n <= terms.len(),
    ensures
        all_binders_from(unlike(terms, n), lo),
    decreases n,
{
    if n > 0 {
        unlike_binders(terms, (n - 1) as nat, lo);
        let before = unlike(terms, (n - 1) as nat);
        assert forall|i: int| 0 <= i < unlike(terms, n).len() implies binders_from(
            #[trigger] unlike(terms, n)[i],
            lo,
        ) by {
            if i >= before.len() {
                let row = unlike_later(terms, n - 1);
                let f = row[i - before.len()];
                assert(unlike(terms, n)[i] == f);
                assert(binders_from(*f->Not_0, lo));
            } else {
                assert(unlike(terms, n)[i] == before[i]);
            }
        }
    }
}

proof fn join_well_scoped(parts: Seq<FormulaModel>, conj: bool, deps: Seq<VarId>)
    requires
        forall|i: int| 0 <= i < parts.len() ==> well_scoped(#[trigger] parts[i], deps),
    ensures
        well_scoped(join(parts, conj), deps),
    decreases parts.len(),
{
    if parts.len() > 0 {
        assert(well_scoped(parts[0], deps));
    }
    if parts.len() > 1 {
        assert forall|i: int| 0 <= i < parts.skip(1).len() implies well_scoped(
            #[trigger] parts.skip(1)[i],
            deps,
        ) by {
            assert(parts.skip(1)[i] == parts[i + 1]);
        }
        join_well_scoped(parts.skip(1), conj, deps);
    }
}

/// The first binder is not among the variables around it.
proof fn bind_well_scoped(
    vars: Seq<VarId>,
    f: RawModel,
    polarity: bool,
    universal: bool,
    deps: Seq<VarId>,
    lo: int,
)
    requires
        consecutive_from(vars, lo),
        binders_from(f, after_binders(vars, lo)),
        forall|i: int| 0 <= i < deps.len() ==> #[trigger] deps[i] < lo,
    ensures
        well_scoped(bind(vars, nnf(f, polarity), universal), deps),
    decreases f, 1nat, vars.len(),
{
    if vars.len() == 0 {
        nnf_well_scoped(f, polarity, deps, lo);
    } else {
        let v = vars[0];
        let rest = vars.skip(1);
        let inner = if universal {
            deps.push(v)
        } else {
            deps
        };
        assert forall|i: int| 0 <= i < rest.len() implies #[trigger] rest[i] == rest[0] + i
            && rest[0] >= v + 1 by {
            assert(rest[i] == vars[i + 1]);
            assert(rest[0] == vars[1]);
        }
        assert(after_binders(rest, v + 1) == after_binders(vars, lo)) by {
            if rest.len() > 0 {
                assert(rest[0] == vars[1]);
            }
        }
        bind_well_scoped(rest, f, polarity, universal, inner, v + 1);
        assert(!deps.contains(v));
    }
}

/// The normal form of a formula whose binders are numbered in order is well scoped.
pub proof fn nnf_well_scoped(f: RawModel, polarity: bool, deps: Seq<VarId>, lo: int)
    requires
        binders_from(f, lo),
        forall|i: int| 0 <= i < deps.len() ==> #[trigger] deps[i] < lo,
    ensures
        well_scoped(nnf(f, polarity), deps),
    decreases f, 0nat, 0nat,
{
    match f {
        RawModel::Pred { .. } | RawModel::True | RawModel::False => {},
        RawModel::Not(inner) => {
            nnf_well_scoped(*inner, !polarity, deps, lo);
        },
        RawModel::And(items) => {
            nnfs_well_scoped(items, polarity, deps, lo);
            join_well_scoped(nnfs(items, polarity), polarity, deps);
        },
        RawModel::Or(items) => {
            nnfs_well_scoped(items, polarity, deps, lo);
            join_well_scoped(nnfs(items, polarity), !polarity, deps);
        },
        RawModel::Implies(l, r) => {
            nnf_well_scoped(*l, !polarity, deps, lo);
            nnf_well_scoped(*r, polarity, deps, lo);
        },
        RawModel::ForAll(vars, body) => {
            bind_well_scoped(vars, *body, polarity, polarity, deps, lo);
        },
        RawModel::Exists(vars, body) => {
            bind_well_scoped(vars, *body, polarity, !polarity, deps, lo);
        },
    }
}

proof fn nnfs_well_scoped(items: Seq<RawModel>, polarity: bool, deps: Seq<VarId>, lo: int)
    requires
        all_binders_from(items, lo),
        forall|i: int| 0 <= i < deps.len() ==> #[trigger] deps[i] < lo,
    ensures
        forall|i: int|
            0 <= i < items.len() ==> well_scoped(#[trigger] nnfs(items, polarity)[i], deps),
    decreases items, 0nat, 0nat,
{
    assert forall|i: int| 0 <= i < items.len() implies well_scoped(
        #[trigger] nnfs(items, polarity)[i],
        deps,
    ) by {
        assert(binders_from(items[i], lo));
        nnf_well_scoped(items[i], polarity, deps, lo);
    }
}

/// The symbol at the head of a command, if it has one.
pub open spec fn command_head(cmd: SexprModel) -> Option<Seq<char>> {
    match cmd {
        SexprModel::List(items) => if items.len() > 0 && items[0] is Atom {
            Some(items[0]->Atom_0)
        } else {
            None
        },
        SexprModel::Atom(_) => None,
    }
}

/// The formula that a command asserts, if it asserts one.
pub open spec fn asserted_formula(cmd: SexprModel) -> Option<RawModel> {
    if command_head(cmd) == Some("assert"@) && cmd->List_0.len() > 1 {
        match formula_reading(cmd->List_0[1], Scope { env: Map::empty(), next: 0 }) {
            Reading::Read((raw, _)) => Some(raw),
            _ => None,
        }
    } else {
        None
    }
}

/// After `n` more backtracking points.
pub open spec fn marked<T>(stack: StackModel<T>, n: nat) -> StackModel<T>
    decreases n,
{
    if n == 0 {
        stack
    } else {
        marked(stack, (n - 1) as nat).pushed()
    }
}

/// The formulas, as written, that the first `n` commands leave asserted.
pub open spec fn stated(cmds: Seq<SexprModel>, n: nat) -> StackModel<RawModel>
    decreases n,
{
    if n == 0 {
        StackModel::empty()
    } else {
        let before = stated(cmds, (n - 1) as nat);
        let cmd = cmds[n - 1];
        if asserted_formula(cmd) is Some {
            before.with(asserted_formula(cmd)->0)
        } else if command_head(cmd) == Some("push"@) {
            marked(before, scope_count(cmd->List_0) as nat)
        } else if command_head(cmd) == Some("pop"@) {
            before.popped(scope_count(cmd->List_0) as nat)
        } else {
            before
        }
    }
}

/// How far a new session is after the first `n` commands, if all of them are carried out.
pub open spec fn progress(cmds: Seq<SexprModel>, n: nat) -> Progress
    decreases n,
{
    if n == 0 {
        starting(InterpModel::fresh())
    } else {
        step(progress(cmds, (n - 1) as nat), cmds[n - 1]).0
    }
}

/// Whether the first `n` commands are all carried out.
pub open spec fn carried_out(cmds: Seq<SexprModel>, n: nat) -> bool {
    forall|i: int|
        0 <= i < n ==> (#[trigger] step(progress(cmds, i as nat), cmds[i])).1 is Done
}

/// Whether no formula that the first `n` commands assert has a symbol with the name of a Skolem
/// symbol that was minted, or of a constant that stands for a bound variable, by the time the solver
/// is at `end`.
pub open spec fn plain_symbols(cmds: Seq<SexprModel>, n: nat, end: SolverModel) -> bool {
    forall|i: int|
        0 <= i < n && (#[trigger] asserted_formula(cmds[i])) is Some ==> {
            let f = nnf(asserted_formula(cmds[i])->0, true);
            &&& clear_of(f, SolverModel::empty().table, end.table.minted)
            &&& clear_of_constants(f, 0, end.constants)
        }
}

/// Whether all the formulas, as written, hold in a structure in which `=` means equality.
pub open spec fn raw_holds_all<D>(
    s: Structure<D>,
    env: spec_fn(VarId) -> D,
    fs: Seq<RawModel>,
) -> bool {
    &&& s.valid()
    &&& s.admits(env)
    &&& equates(s)
    &&& forall|i: int| 0 <= i < fs.len() ==> raw_satisfies(s, env, #[trigger] fs[i])
}

/// Whether the formulas, as written, can hold together.
pub open spec fn raw_satisfiable(fs: Seq<RawModel>) -> bool {
    exists|s: Structure<int>, env: spec_fn(VarId) -> int| raw_holds_all(s, env, fs)
}

/// The heads of commands are different words.
pub proof fn heads_differ()
    ensures
        forall|head: Seq<char>|
            head == "assert"@ || head == "push"@ || head == "pop"@ ==> {
                &&& #[trigger] head.len() <= 6
                &&& head != "set-logic"@
                &&& head != "set-info"@
                &&& head != "set-option"@
                &&& head != "declare-sort"@
                &&& head != "declare-const"@
                &&& head != "declare-fun"@
            },
        "push"@ != "assert"@,
        "pop"@ != "assert"@,
        "pop"@ != "push"@,
{
    reveal_strlit("assert");
    reveal_strlit("push");
    reveal_strlit("pop");
    reveal_strlit("set-logic");
    reveal_strlit("set-info");
    reveal_strlit("set-option");
    reveal_strlit("declare-sort");
    reveal_strlit("declare-const");
    reveal_strlit("declare-fun");
    assert("set-logic"@.len() == 9 && "set-info"@.len() == 8 && "set-option"@.len() == 10);
    assert("declare-sort"@.len() == 12 && "declare-const"@.len() == 13 && "declare-fun"@.len()
        == 11);
    assert("assert"@.len() == 6 && "push"@.len() == 4 && "pop"@.len() == 3);
}

/// The state of a solver after `events` and one more.
proof fn one_more(events: Seq<Event>, e: Event, end: SolverModel)
    ensures
        solver_after(events.push(e), events.len() + 1) == happened(
            solver_after(events, events.len()),
            e,
        ),
        formulas_after(events.push(e), events.len()) == formulas_after(events, events.len()),
        solver_after(events.push(e), events.len()) == solver_after(events, events.len()),
        in_order(events, events.len(), end) ==> in_order(events.push(e), events.len(), end),
{
    same_start(events, events.push(e), events.len());
    assert forall|i: int| 0 <= i < events.len() implies formulas_after(events.push(e), i as nat)
        == formulas_after(events, i as nat) && #[trigger] solver_after(events.push(e), i as nat)
        == solver_after(events, i as nat) && events.push(e)[i] == events[i] by {
        same_start(events, events.push(e), i as nat);
    }
    if in_order(events, events.len(), end) {
        assert forall|i: int| 0 <= i < events.len() implies match #[trigger] events.push(e)[i] {
            Event::Assert(f) => {
                &&& self_contained(f, end)
                &&& solver_after(events.push(e), i as nat).translation(f).0 is Ok
            },
            Event::Push => true,
            Event::Pop(k) => k <= formulas_after(events.push(e), i as nat).marks.len(),
            Event::Tidy(t) => crate::soundness::rescoped(
                solver_after(events.push(e), i as nat).table,
                t,
            ),
        } by {
            assert(solver_after(events.push(e), i as nat) == solver_after(events, i as nat));
            assert(events[i] == events.push(e)[i]);
        }
    }
}

proof fn same_start(a: Seq<Event>, b: Seq<Event>, n: nat)
    requires
        n <= a.len(),
        n <= b.len(),
        forall|i: int| 0 <= i < n ==> #[trigger] a[i] == b[i],
    ensures
        solver_after(a, n) == solver_after(b, n),
        formulas_after(a, n) == formulas_after(b, n),
    decreases n,
{
    if n > 0 {
        same_start(a, b, (n - 1) as nat);
        assert(a[n - 1] == b[n - 1]);
    }
}

/// The normal forms of formulas as written.
spec fn normal_forms(stack: StackModel<RawModel>) -> StackModel<FormulaModel> {
    StackModel {
        asserted: Seq::new(stack.asserted.len(), |i: int| nnf(stack.asserted[i], true)),
        marks: stack.marks,
    }
}

/// Whether the backtracking points lie in order within what is asserted.
spec fn bounded<T>(stack: StackModel<T>) -> bool {
    &&& forall|j: int|
        0 <= j < stack.marks.len() ==> #[trigger] stack.marks[j] <= stack.asserted.len()
    &&& forall|j: int, k: int|
        0 <= j < k < stack.marks.len() ==> #[trigger] stack.marks[j] <= #[trigger] stack.marks[k]
}

/// Whether the events are what the first `n` commands do to the solver.
spec fn traced(events: Seq<Event>, cmds: Seq<SexprModel>, n: nat, end: SolverModel) -> bool {
    &&& in_order(events, events.len(), end)
    &&& solver_after(events, events.len()) == progress(cmds, n).at.solver
    &&& formulas_after(events, events.len()) == normal_forms(stated(cmds, n))
    &&& bounded(stated(cmds, n))
}

/// The events of entering `k` scopes.
proof fn trace_push(
    events: Seq<Event>,
    stack: StackModel<RawModel>,
    k: nat,
    end: SolverModel,
) -> (r: Seq<Event>)
    requires
        in_order(events, events.len(), end),
        formulas_after(events, events.len()) == normal_forms(stack),
        bounded(stack),
    ensures
        in_order(r, r.len(), end),
        solver_after(r, r.len()) == entered(solver_after(events, events.len()), k),
        formulas_after(r, r.len()) == normal_forms(marked(stack, k)),
        bounded(marked(stack, k)),
    decreases k,
{
    if k == 0 {
        events
    } else {
        let before = trace_push(events, stack, (k - 1) as nat, end);
        let mid = marked(stack, (k - 1) as nat);
        let r = before.push(Event::Push);
        one_more(before, Event::Push, end);
        assert(normal_forms(mid.pushed()) =~= normal_forms(mid).pushed());
        assert(bounded(mid.pushed())) by {
            assert(mid.pushed().marks.last() == mid.asserted.len());
        }
        r
    }
}

/// The event of asserting a formula.
proof fn trace_assert(
    events: Seq<Event>,
    stack: StackModel<RawModel>,
    m: Progress,
    items: Seq<SexprModel>,
    raw: RawModel,
    end: SolverModel,
) -> (r: Seq<Event>)
    requires
        in_order(events, events.len(), end),
        solver_after(events, events.len()) == m.at.solver,
        formulas_after(events, events.len()) == normal_forms(stack),
        items.len() > 1,
        formula_reading(items[1], Scope { env: Map::empty(), next: 0 }) is Read,
        raw == formula_reading(items[1], Scope { env: Map::empty(), next: 0 })->Read_0.0,
        assertion(m, items).1 is Done,
        clear_of(nnf(raw, true), SolverModel::empty().table, end.table.minted),
        clear_of_constants(nnf(raw, true), 0, end.constants),
    ensures
        in_order(r, r.len(), end),
        solver_after(r, r.len()) == assertion(m, items).0.at.solver,
        formulas_after(r, r.len()) == normal_forms(stack.with(raw)),
{
    let f = nnf(raw, true);
    let e = Event::Assert(f);
    let r = events.push(e);
    reading_numbers_binders(items[1], Scope { env: Map::empty(), next: 0 });
    nnf_well_scoped(raw, true, Seq::empty(), 0);
    assert(self_contained(f, end));
    assert(m.at.solver.translation(f).0 is Ok);
    one_more(events, e, end);
    assert(in_order(r, r.len(), end)) by {
        assert(r[events.len() as int] == e);
    }
    assert(normal_forms(stack.with(raw)) =~= normal_forms(stack).with(f));
    r
}

/// The event of leaving scopes.
proof fn trace_pop(
    events: Seq<Event>,
    stack: StackModel<RawModel>,
    m: Progress,
    k: u32,
    end: SolverModel,
) -> (r: Seq<Event>)
    requires
        in_order(events, events.len(), end),
        solver_after(events, events.len()) == m.at.solver,
        formulas_after(events, events.len()) == normal_forms(stack),
        bounded(stack),
        !leaving(m, k).lost,
    ensures
        in_order(r, r.len(), end),
        solver_after(r, r.len()) == leaving(m, k).at.solver,
        formulas_after(r, r.len()) == normal_forms(stack.popped(k as nat)),
        bounded(stack.popped(k as nat)),
{
    let e = Event::Pop(k);
    let r = events.push(e);
    marks_in_step(events, events.len(), end);
    one_more(events, e, end);
    assert(normal_forms(stack.popped(k as nat)) =~= normal_forms(stack).popped(k as nat));
    r
}

/// Z3 and the asserted formulas have their backtracking points in step.
proof fn marks_in_step(events: Seq<Event>, n: nat, end: SolverModel)
    requires
        n <= events.len(),
        in_order(events, n, end),
    ensures
        solver_after(events, n).stack.marks.len() == formulas_after(events, n).marks.len(),
    decreases n,
{
    if n > 0 {
        assert(in_order(events, (n - 1) as nat, end));
        marks_in_step(events, (n - 1) as nat, end);
    }
}

/// What Z3 holds, once lost, stays lost.
proof fn lost_stays_lost(m: Progress, cmd: SexprModel)
    ensures
        m.lost ==> step(m, cmd).0.lost,
{
}

/// The events of the first `n` commands.
proof fn trace(cmds: Seq<SexprModel>, n: nat, end: SolverModel) -> (r: Seq<Event>)
    requires
        n <= cmds.len(),
        carried_out(cmds, n),
        plain_symbols(cmds, n, end),
        !progress(cmds, n).lost,
    ensures
        traced(r, cmds, n, end),
    decreases n,
{
    if n == 0 {
        let none = Seq::<Event>::empty();
        assert(normal_forms(StackModel::empty()) =~= StackModel::<FormulaModel>::empty());
        none
    } else {
        let k = (n - 1) as nat;
        let cmd = cmds[k as int];
        let m = progress(cmds, k);
        let stack = stated(cmds, k);
        lost_stays_lost(m, cmd);
        assert(carried_out(cmds, k));
        let events = trace(cmds, k, end);
        assert(step(m, cmd).1 is Done);
        heads_differ();
        let head = command_head(cmd);
        if head == Some("assert"@) {
            let items = cmd->List_0;
            assert(step(m, cmd) == assertion(m, items));
            assert(asserted_formula(cmds[k as int]) is Some);
            trace_assert(events, stack, m, items, asserted_formula(cmd)->0, end)
        } else if head == Some("push"@) {
            trace_push(events, stack, scope_count(cmd->List_0) as nat, end)
        } else if head == Some("pop"@) {
            assert(step(m, cmd).0 == leaving(m, scope_count(cmd->List_0)));
            trace_pop(events, stack, m, scope_count(cmd->List_0), end)
        } else {
            assert(step(m, cmd).0.at.solver == m.at.solver);
            events
        }
    }
}

/// Definite answers are right: whatever commands of a script have been carried out, an answer that
/// is right for what Z3 was told is right for the formulas as they are written in the script.
pub proof fn script_answers_are_right(cmds: Seq<SexprModel>, n: nat, r: SatResult)
    requires
        n <= cmds.len(),
        carried_out(cmds, n),
        plain_symbols(cmds, n, progress(cmds, n).at.solver),
        !progress(cmds, n).lost,
        right_answer(r, progress(cmds, n).at.solver.stack.asserted),
    ensures
        match r {
            SatResult::Unsat => !raw_satisfiable(stated(cmds, n).asserted),
            SatResult::Sat => raw_satisfiable(stated(cmds, n).asserted),
            SatResult::Unknown => true,
        },
{
    let events = trace(cmds, n, progress(cmds, n).at.solver);
    answers_are_right(events, r);
    let raws = stated(cmds, n).asserted;
    let fs = formulas_after(events, events.len()).asserted;
    assert forall|s: Structure<int>, env: spec_fn(VarId) -> int| #[trigger]
        raw_holds_all(s, env, raws) == #[trigger] holds_all(s, env, fs) by {
        assert forall|i: int| 0 <= i < raws.len() implies satisfies(s, env, fs[i])
            == #[trigger] raw_satisfies(s, env, raws[i]) by {
            nnf_keeps_meaning(s, env, raws[i], true);
        }
        if raw_holds_all(s, env, raws) {
            assert forall|i: int| 0 <= i < fs.len() implies satisfies(s, env, #[trigger] fs[i]) by {
                assert(raw_satisfies(s, env, raws[i]));
            }
        }
        if holds_all(s, env, fs) {
            assert forall|i: int| 0 <= i < raws.len() implies raw_satisfies(
                s,
                env,
                #[trigger] raws[i],
            ) by {
                assert(satisfies(s, env, fs[i]));
            }
        }
    }
    if raw_satisfiable(raws) {
        let (s, env) = choose|s: Structure<int>, env: spec_fn(VarId) -> int|
            raw_holds_all(s, env, raws);
        assert(holds_all(s, env, fs));
    }
    if satisfiable(fs) {
        let (s, env) = choose|s: Structure<int>, env: spec_fn(VarId) -> int|
            holds_all(s, env, fs);
        assert(raw_holds_all(s, env, raws));
    }
}

/// The commands of a script are carried out one after the other: each result belongs to a
/// `check-sat` whose earlier commands were all carried out.
pub proof fn checks_follow_the_script(cmds: Seq<SexprModel>, k: int) -> (n: nat)
    requires
        0 <= k < run(starting(InterpModel::fresh()), cmds, 0).0.checks.len(),
    ensures
        n < cmds.len(),
        carried_out(cmds, n),
        command_head(cmds[n as int]) == Some("check-sat"@),
        run(starting(InterpModel::fresh()), cmds, 0).0.checks[k] == (if progress(cmds, n).lost {
            None::<StackModel<AstModel>>
        } else {
            Some(progress(cmds, n).at.solver.stack)
        }),
{
    check_at(cmds, 0, k)
}

proof fn check_at(cmds: Seq<SexprModel>, i: nat, k: int) -> (n: nat)
    requires
        i <= cmds.len(),
        carried_out(cmds, i),
        progress(cmds, i).checks.len() <= k < run(progress(cmds, i), cmds, i).0.checks.len(),
    ensures
        n < cmds.len(),
        carried_out(cmds, n),
        command_head(cmds[n as int]) == Some("check-sat"@),
        run(progress(cmds, i), cmds, i).0.checks[k] == (if progress(cmds, n).lost {
            None::<StackModel<AstModel>>
        } else {
            Some(progress(cmds, n).at.solver.stack)
        }),
    decreases cmds.len() - i,
{
    let m = progress(cmds, i);
    let (after, outcome) = step(m, cmds[i as int]);
    assert(i < cmds.len());
    assert(after == progress(cmds, i + 1)) by {
        assert(progress(cmds, i + 1) == step(progress(cmds, (i + 1 - 1) as nat), cmds[i + 1 - 1]).0);
    }
    if after.checks.len() > k {
        assert(command_head(cmds[i as int]) == Some("check-sat"@));
        assert(outcome is Done);
        assert(after.checks.len() == k + 1);
        run_keeps_checks(after, cmds, i + 1);
        assert(run(after, cmds, i + 1).0.checks[k] == after.checks[k]);
        i
    } else {
        assert(outcome is Done);
        assert(carried_out(cmds, i + 1)) by {
            assert forall|j: int| 0 <= j < i + 1 implies (#[trigger] step(
                progress(cmds, j as nat),
                cmds[j],
            )).1 is Done by {}
        }
        check_at(cmds, i + 1, k)
    }
}

/// A run only adds checks.
proof fn run_keeps_checks(m: Progress, cmds: Seq<SexprModel>, i: nat)
    ensures
        m.checks.is_prefix_of(run(m, cmds, i).0.checks),
    decreases cmds.len() - i,
{
    if i < cmds.len() {
        let (after, outcome) = step(m, cmds[i as int]);
        assert(m.checks.is_prefix_of(after.checks));
        run_keeps_checks(after, cmds, i + 1);
        assert(run(after, cmds, i + 1).0.checks.take(m.checks.len() as int) =~= m.checks);
    }
}

} // verus!
