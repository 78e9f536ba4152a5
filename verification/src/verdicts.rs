//! What Z3's answers say about the formulas that were asserted.

use crate::model::{height, FormulaModel, VarId};
use crate::semantics::{free_in, mentions, satisfies, Structure};
use crate::skolem_table::{symbol, CachedModel, KeyModel, TableModel};
use crate::skolemize::skolemized;
use crate::soundness::{
    ahead, assertable, clear_of, closed_under, minted_here, minted_under, rescoped, session,
    session_keeps_satisfiability, session_minted, skolemized_brings_no_free_variables,
    skolemized_implies_formula,
    skolemized_is_existential_free, skolemized_keeps_free_variables, skolemized_symbols,
    well_scoped,
};
use crate::translation::{
    bound_by, clear_of_constants, constants_grow, follows, formula_accepted, formula_translated,
    with_equality,
};
use crate::z3_api::{
    about_one_sort, ast_holds, consistent, models, nul_free, one_sorted, AstModel, StackModel,
};
use crate::z3_bridge::{
    constant_decl, domain_sort, encodable, formula_ast, right_answer, skolemized_is_encodable,
    SolverModel, Trouble,
};
use vstd::prelude::*;
use z3::SatResult;

verus! {

/// A solver accepts only formulas without free variables, and refuses a formula only for one of its
/// free variables, which the error names.
pub proof fn accepted_formulas_are_closed(m: SolverModel, f: FormulaModel)
    ensures
        match m.translation(f).0 {
            Ok(_) => closed_under(f, Seq::empty()),
            Err(Trouble::Refused(e)) => {
                &&& e is UnboundVariable
                &&& free_in(e->UnboundVariable_0, f)
                &&& !closed_under(f, Seq::empty())
            },
            Err(Trouble::Stuck) => true,
        },
{
    let none = Seq::<VarId>::empty();
    let g = skolemized(f, none, m.table).0;
    let bound = Map::<VarId, AstModel>::empty();
    skolemized_is_existential_free(f, none, m.table);
    formula_accepted(g, bound, m.constants);
    match m.translation(f).0 {
        Ok(_) => {
            assert forall|x: VarId| #[trigger] free_in(x, f) implies none.contains(x) by {
                skolemized_keeps_free_variables(f, none, m.table, x);
                assert(bound.contains_key(x));
            }
        },
        Err(Trouble::Refused(e)) => {
            let x = e->UnboundVariable_0;
            skolemized_brings_no_free_variables(f, none, m.table, x);
            assert(!none.contains(x));
        },
        Err(Trouble::Stuck) => {},
    }
}

/// A solver accepts every formula without free variables whose symbols can be declared in Z3.
pub proof fn closed_formulas_are_accepted(m: SolverModel, f: FormulaModel)
    requires
        m.table.wf(),
        nul_free(m.table.prefix),
        encodable(f),
        height(f) <= u32::MAX,
        closed_under(f, Seq::empty()),
    ensures
        m.translation(f).0 is Ok,
{
    let none = Seq::<VarId>::empty();
    let g = skolemized(f, none, m.table).0;
    skolemized_is_existential_free(f, none, m.table);
    skolemized_is_encodable(f, none, m.table);
    formula_accepted(g, Map::empty(), m.constants);
    accepted_formulas_are_closed(m, f);
}

/// Whether `=` means equality in a structure.
pub open spec fn equates<D>(s: Structure<D>) -> bool {
    forall|args: Seq<D>|
        args.len() == 2 ==> #[trigger] (s.rel)("="@, args) == (args[0] == args[1])
}

/// Whether all the formulas hold in a structure in which `=` means equality.
pub open spec fn holds_all<D>(
    s: Structure<D>,
    env: spec_fn(VarId) -> D,
    fs: Seq<FormulaModel>,
) -> bool {
    &&& s.valid()
    &&& s.admits(env)
    &&& equates(s)
    &&& forall|i: int| 0 <= i < fs.len() ==> satisfies(s, env, #[trigger] fs[i])
}

/// Whether the formulas can hold together. A countable domain is enough for that, so the
/// structures are those whose elements are numbers.
pub open spec fn satisfiable(fs: Seq<FormulaModel>) -> bool {
    exists|s: Structure<int>, env: spec_fn(VarId) -> int| holds_all(s, env, fs)
}

/// What may happen to a solver.
pub enum Event {
    Assert(FormulaModel),
    Push,
    Pop(u32),
    /// The table of symbols was tidied up, and is this now.
    Tidy(TableModel),
}

/// A solver after an event.
pub open spec fn happened(m: SolverModel, e: Event) -> SolverModel {
    match e {
        Event::Assert(f) => m.asserted(f),
        Event::Push => m.pushed(),
        Event::Pop(n) => SolverModel {
            stack: m.stack.popped(n as nat),
            table: m.table.popped(n as usize),
            ..m
        },
        Event::Tidy(t) => SolverModel { table: t, ..m },
    }
}

/// A new solver after the first `n` events.
pub open spec fn solver_after(events: Seq<Event>, n: nat) -> SolverModel
    decreases n,
{
    if n == 0 {
        SolverModel::empty()
    } else {
        happened(solver_after(events, (n - 1) as nat), events[n - 1])
    }
}

/// The formulas that are asserted after the first `n` events.
pub open spec fn formulas_after(events: Seq<Event>, n: nat) -> StackModel<FormulaModel>
    decreases n,
{
    if n == 0 {
        StackModel::empty()
    } else {
        let before = formulas_after(events, (n - 1) as nat);
        match events[n - 1] {
            Event::Assert(f) => before.with(f),
            Event::Push => before.pushed(),
            Event::Pop(n) => before.popped(n as nat),
            Event::Tidy(_) => before,
        }
    }
}

/// Whether the symbols and variables of a formula do not get in the way of those that come in: it
/// binds no universal variable again, and has no symbol with the name of a Skolem symbol that was
/// minted, or of a constant that stands for a bound variable, by the time the solver is at `end`.
pub open spec fn self_contained(f: FormulaModel, end: SolverModel) -> bool {
    &&& well_scoped(f, Seq::empty())
    &&& clear_of(f, SolverModel::empty().table, end.table.minted)
    &&& clear_of_constants(f, 0, end.constants)
}

/// Whether the first `n` events are in order: formulas are self-contained, up to the solver's being
/// at `end`, and are accepted, no more scopes are left than were entered, and tidying up only drops
/// entries.
pub open spec fn in_order(events: Seq<Event>, n: nat, end: SolverModel) -> bool {
    forall|i: int|
        0 <= i < n ==> match #[trigger] events[i] {
            Event::Assert(f) => {
                &&& self_contained(f, end)
                &&& solver_after(events, i as nat).translation(f).0 is Ok
            },
            Event::Push => true,
            Event::Pop(k) => k <= formulas_after(events, i as nat).marks.len(),
            Event::Tidy(t) => rescoped(solver_after(events, i as nat).table, t),
        }
}

/// The assertions of a session, and which of them stand.
struct Ledger {
    /// All the formulas, in the order in which they were asserted.
    fs: Seq<FormulaModel>,
    /// The tables at those times.
    ts: Seq<TableModel>,
    /// How many constants there were.
    ns: Seq<nat>,
    /// Which of the formulas are asserted now.
    standing: Seq<int>,
}

impl Ledger {
    /// The translation of the `i`-th formula.
    spec fn ast(self, i: int) -> Result<AstModel, Trouble> {
        formula_ast(skolemized(self.fs[i], Seq::empty(), self.ts[i]).0, Map::empty(), self.ns[i]).0
    }

    /// How many constants there were after the `i`-th formula.
    spec fn constants_after(self, i: int) -> nat {
        formula_ast(skolemized(self.fs[i], Seq::empty(), self.ts[i]).0, Map::empty(), self.ns[i]).1
    }

    /// The table after the last formula.
    spec fn last_table(self) -> TableModel {
        if self.fs.len() == 0 {
            SolverModel::empty().table
        } else {
            skolemized(self.fs.last(), Seq::empty(), self.ts.last()).1
        }
    }

    /// Whether this is the ledger of a solver and of the formulas asserted in it.
    spec fn keeps(
        self,
        m: SolverModel,
        formulas: StackModel<FormulaModel>,
        end: SolverModel,
    ) -> bool {
        &&& session(self.fs, self.ts)
        &&& self.ns.len() == self.fs.len()
        &&& forall|i: int|
            0 <= i < self.fs.len() ==> {
                &&& self_contained(#[trigger] self.fs[i], end)
                &&& closed_under(self.fs[i], Seq::empty())
                &&& self.ast(i) is Ok
                &&& self.constants_after(i) <= m.constants
            }
        &&& forall|i: int|
            0 <= i < self.fs.len() ==> minted_here(#[trigger] self.ts[i]) && self.ts[i].prefix
                == "sk!"@
        &&& self.fs.len() > 0 ==> rescoped(SolverModel::empty().table, self.ts[0])
        &&& rescoped(self.last_table(), m.table)
        &&& minted_here(m.table)
        &&& m.table.prefix == "sk!"@
        &&& m.stack.marks == formulas.marks
        &&& m.stack.asserted.len() == formulas.asserted.len()
        &&& self.standing.len() == formulas.asserted.len()
        &&& forall|j: int|
            0 <= j < self.standing.len() ==> {
                &&& 0 <= #[trigger] self.standing[j] < self.fs.len()
                &&& formulas.asserted[j] == self.fs[self.standing[j]]
                &&& self.ast(self.standing[j]) == Ok::<AstModel, Trouble>(m.stack.asserted[j])
            }
        &&& forall|j: int|
            0 <= j < formulas.marks.len() ==> #[trigger] formulas.marks[j]
                <= formulas.asserted.len()
        &&& forall|j: int, k: int|
            0 <= j < k < formulas.marks.len() ==> #[trigger] formulas.marks[j]
                <= #[trigger] formulas.marks[k]
    }
}

/// The ledger after the first `n` events.
proof fn ledger_after(events: Seq<Event>, n: nat, end: SolverModel) -> (r: Ledger)
    requires
        n <= events.len(),
        in_order(events, n, end),
    ensures
        r.keeps(solver_after(events, n), formulas_after(events, n), end),
    decreases n,
{
    if n == 0 {
        Ledger { fs: Seq::empty(), ts: Seq::empty(), ns: Seq::empty(), standing: Seq::empty() }
    } else {
        assert(in_order(events, (n - 1) as nat, end));
        let old = ledger_after(events, (n - 1) as nat, end);
        let m = solver_after(events, (n - 1) as nat);
        let formulas = formulas_after(events, (n - 1) as nat);
        let after = solver_after(events, n);
        match events[n - 1] {
            Event::Assert(f) => ledger_assert(old, m, formulas, f, end),
            Event::Push => {
                assert(formulas.pushed().marks.last() == formulas.asserted.len());
                assert(old.keeps(m.pushed(), formulas.pushed(), end));
                old
            },
            Event::Pop(k) => {
                let keep = formulas.popped(k as nat);
                assert forall|i: int| 0 <= i < old.fs.len() implies (Ledger {
                    standing: old.standing.take(keep.asserted.len() as int),
                    ..old
                }).ast(i) == #[trigger] old.ast(i) by {}
                let r = Ledger { standing: old.standing.take(keep.asserted.len() as int), ..old };
                assert(r.last_table() == old.last_table());
                assert forall|j: int| 0 <= j < r.standing.len() implies {
                    &&& 0 <= #[trigger] r.standing[j] < r.fs.len()
                    &&& keep.asserted[j] == r.fs[r.standing[j]]
                    &&& r.ast(r.standing[j]) == Ok::<AstModel, Trouble>(after.stack.asserted[j])
                } by {
                    assert(r.standing[j] == old.standing[j]);
                    assert(r.ast(r.standing[j]) == old.ast(old.standing[j]));
                }
                r
            },
            Event::Tidy(t) => {
                assert(minted_here(t)) by {
                    assert forall|k: KeyModel| #[trigger] t.entries.contains_key(
                        k,
                    ) implies minted_under(t.prefix, t.entries[k].entry.symbol) by {
                        assert(m.table.entries.contains_key(k));
                    }
                }
                old
            },
        }
    }
}

/// The ledger after one more assertion.
proof fn ledger_assert(
    old: Ledger,
    m: SolverModel,
    formulas: StackModel<FormulaModel>,
    f: FormulaModel,
    end: SolverModel,
) -> (r: Ledger)
    requires
        old.keeps(m, formulas, end),
        self_contained(f, end),
        m.translation(f).0 is Ok,
    ensures
        r.keeps(m.asserted(f), formulas.with(f), end),
{
    let none = Seq::<VarId>::empty();
    let after = m.asserted(f);
    let all = formulas.with(f);
    let r = Ledger {
        fs: old.fs.push(f),
        ts: old.ts.push(m.table),
        ns: old.ns.push(m.constants),
        standing: old.standing.push(old.fs.len() as int),
    };
    let last = old.fs.len() as int;
    accepted_formulas_are_closed(m, f);
    skolemized_symbols(f, none, m.table);
    assert forall|i: int| 0 <= i < r.fs.len() - 1 implies rescoped(
        (#[trigger] skolemized(r.fs[i], none, r.ts[i])).1,
        r.ts[i + 1],
    ) by {
        assert(r.fs[i] == old.fs[i] && r.ts[i] == old.ts[i]);
        if i < last - 1 {
            assert(rescoped(skolemized(old.fs[i], none, old.ts[i]).1, old.ts[i + 1]));
        }
    }
    constants_grow(skolemized(f, none, m.table).0, Map::empty(), m.constants);
    assert forall|i: int| 0 <= i < r.fs.len() implies {
        &&& self_contained(#[trigger] r.fs[i], end)
        &&& closed_under(r.fs[i], none)
        &&& r.ast(i) is Ok
        &&& r.constants_after(i) <= after.constants
    } by {
        if i < last {
            assert(r.fs[i] == old.fs[i]);
            assert(r.ast(i) == old.ast(i));
            assert(r.constants_after(i) == old.constants_after(i));
        }
    }
    assert forall|i: int| 0 <= i < r.fs.len() implies minted_here(#[trigger] r.ts[i])
        && r.ts[i].prefix == "sk!"@ by {
        if i < last {
            assert(r.ts[i] == old.ts[i]);
        }
    }
    assert forall|j: int| 0 <= j < r.standing.len() implies {
        &&& 0 <= #[trigger] r.standing[j] < r.fs.len()
        &&& all.asserted[j] == r.fs[r.standing[j]]
        &&& r.ast(r.standing[j]) == Ok::<AstModel, Trouble>(after.stack.asserted[j])
    } by {
        if j < old.standing.len() {
            assert(r.standing[j] == old.standing[j]);
            assert(r.ast(r.standing[j]) == old.ast(old.standing[j]));
        }
    }
    if last > 0 {
        assert(r.ts[0] == old.ts[0]);
    }
    r
}

/// No Skolem symbol has the name of a constant for a bound variable.
proof fn constants_are_no_skolem_symbols(i: nat)
    ensures
        !minted_under("sk!"@, constant_decl(i).name),
{
    reveal_strlit("sk!");
    reveal_strlit("v");
    reveal_strlit("!");
    let name = constant_decl(i).name;
    if minted_under("sk!"@, name) {
        let k = choose|k: nat| name == #[trigger] symbol("sk!"@, k);
        assert(name[0] == 'v');
        assert(symbol("sk!"@, k)[0] == 's');
    }
}

impl Ledger {
    /// The translation of a formula speaks of one sort, and holds where the Skolemized formula
    /// does.
    proof fn translated<D>(
        self,
        m: SolverModel,
        formulas: StackModel<FormulaModel>,
        i: int,
        s: Structure<D>,
        env: spec_fn(VarId) -> D,
    )
        requires
            self.keeps(m, formulas, m),
            0 <= i < self.fs.len(),
        ensures
            one_sorted(self.ast(i)->Ok_0, domain_sort()),
            ast_holds(s, self.ast(i)->Ok_0) == satisfies(
                with_equality(s),
                env,
                skolemized(self.fs[i], Seq::empty(), self.ts[i]).0,
            ),
    {
        let none = Seq::<VarId>::empty();
        let bound = Map::<VarId, AstModel>::empty();
        let f = self.fs[i];
        let t = self.ts[i];
        let g = skolemized(f, none, t).0;
        assert(self_contained(f, m));
        assert(minted_here(t));
        skolemized_symbols(f, none, t);
        assert(clear_of_constants(g, self.ns[i], self.constants_after(i))) by {
            assert forall|k: nat| self.ns[i] < k <= self.constants_after(i) implies !mentions(
                #[trigger] constant_decl(k).name,
                g,
            ) by {
                constants_are_no_skolem_symbols(k);
                assert(!mentions(constant_decl(k).name, f));
            }
        }
        assert(bound_by(bound, self.ns[i]));
        assert(follows(env, s, bound));
        formula_translated(g, bound, self.ns[i], s, env);
    }
}

/// Where `=` means equality already, giving it that meaning changes nothing.
proof fn equality_given<D>(s: Structure<D>)
    requires
        equates(s),
    ensures
        with_equality(s) == s,
{
    assert forall|name: Seq<char>, args: Seq<D>| #[trigger]
        (with_equality(s).rel)(name, args) == (s.rel)(name, args) by {}
    assert(with_equality(s).rel =~= s.rel);
}

/// Definite answers are right: for a solver that has been through any events in order, with no
/// symbol in its formulas that was minted or taken for a variable on the way, an answer
/// that is right for what Z3 was told is right for the formulas that were asserted. If it is
/// "unsatisfiable", they cannot hold together, and if it is "satisfiable", they can.
pub proof fn answers_are_right(events: Seq<Event>, r: SatResult)
    requires
        in_order(events, events.len(), solver_after(events, events.len())),
        right_answer(r, solver_after(events, events.len()).stack.asserted),
    ensures
        match r {
            SatResult::Unsat => !satisfiable(formulas_after(events, events.len()).asserted),
            SatResult::Sat => satisfiable(formulas_after(events, events.len()).asserted),
            SatResult::Unknown => true,
        },
{
    let none = Seq::<VarId>::empty();
    let m = solver_after(events, events.len());
    let formulas = formulas_after(events, events.len());
    let asserted = m.stack.asserted;
    let ledger = ledger_after(events, events.len(), m);
    let any: Structure<int> = arbitrary();
    let anything: spec_fn(VarId) -> int = arbitrary();
    assert(about_one_sort(asserted, domain_sort())) by {
        assert forall|j: int| 0 <= j < asserted.len() implies one_sorted(
            #[trigger] asserted[j],
            domain_sort(),
        ) by {
            let i = ledger.standing[j];
            ledger.translated(m, formulas, i, any, anything);
        }
    }
    if satisfiable(formulas.asserted) {
        let (s, env) = choose|s: Structure<int>, env: spec_fn(VarId) -> int|
            holds_all(s, env, formulas.asserted);
        if ledger.fs.len() > 0 {
            let start = ledger.ts[0];
            assert(start.entries =~= Map::<KeyModel, CachedModel>::empty());
            assert forall|i: int| 0 <= i < ledger.fs.len() implies assertable(
                #[trigger] ledger.fs[i],
                start,
                session_minted(ledger.fs, ledger.ts),
            ) by {
                assert(self_contained(ledger.fs[i], m));
                same_future(SolverModel::empty().table, start, ledger.fs[i], m.table.minted);
            }
            let big = session_keeps_satisfiability(ledger.fs, ledger.ts, s);
            assert(big.rel == s.rel);
            equality_given(big);
            assert(models(big, asserted)) by {
                assert forall|j: int| 0 <= j < asserted.len() implies ast_holds(
                    big,
                    #[trigger] asserted[j],
                ) by {
                    let i = ledger.standing[j];
                    ledger.translated(m, formulas, i, big, env);
                    assert(satisfies(s, env, formulas.asserted[j]));
                    assert(satisfies(big, env, skolemized(ledger.fs[i], none, ledger.ts[i]).0));
                }
            }
            assert(consistent(asserted));
        } else {
            assert(asserted.len() == 0) by {
                if asserted.len() > 0 {
                    assert(0 <= ledger.standing[0] < ledger.fs.len());
                }
            }
            assert(models(s, asserted));
            assert(consistent(asserted));
        }
    }
    if consistent(asserted) {
        let s = choose|s: Structure<int>| models(s, asserted);
        let e = with_equality(s);
        let d = choose|d: int| s.dom.contains(d);
        let env = |v: VarId| d;
        assert(e.dom.contains(d));
        assert(e.valid()) by {
            assert forall|name: Seq<char>, args: Seq<int>| e.covers(args) implies e.dom.contains(
                #[trigger] (e.fun)(name, args),
            ) by {
                assert(s.covers(args));
                assert(s.dom.contains((s.fun)(name, args)));
            }
        }
        assert(holds_all(e, env, formulas.asserted)) by {
            assert forall|j: int| 0 <= j < formulas.asserted.len() implies satisfies(
                e,
                env,
                #[trigger] formulas.asserted[j],
            ) by {
                let i = ledger.standing[j];
                ledger.translated(m, formulas, i, s, env);
                assert(ast_holds(s, asserted[j]));
                assert(self_contained(ledger.fs[i], m));
                skolemized_implies_formula(ledger.fs[i], none, ledger.ts[i], e, env);
            }
        }
        assert(satisfiable(formulas.asserted));
    }
}

/// Which symbols are yet to be minted depends only on how many there are.
proof fn same_future(t1: TableModel, t2: TableModel, f: FormulaModel, limit: nat)
    requires
        rescoped(t1, t2),
        clear_of(f, t1, limit),
    ensures
        clear_of(f, t2, limit),
{
    assert forall|n: Seq<char>| #[trigger] mentions(n, f) implies !ahead(t2, n, limit) by {
        assert(!ahead(t1, n, limit));
    }
}

} // verus!
