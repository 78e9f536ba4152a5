//! What each command of a script does.

use crate::equivalence::raw_satisfies;
use crate::forms::{binders, formulas_can_be_read, has_fault, is_formula, reported_faults_are_there};
use crate::meaning::{agrees, holds, reading_keeps_meaning};
use crate::model::{existentials, height, FormulaModel, VarId};
use crate::naming::{assertions_bind_once, binds_once, named, nnf_free, reading_respects_scope};
use crate::nnf::{nnf, RawModel};
use crate::reading::{formula_reading, Scope};
use crate::reuse::{only_reused, retains, skolemizing_again_reuses};
use crate::scripts::{
    carried_out, command_head, heads_differ, marked, plain_symbols, progress, raw_holds_all,
    raw_satisfiable, script_answers_are_right, stated,
};
use crate::semantics::{free_in, Structure};
use crate::sexpr::SexprModel;
use crate::skolem_table::KeyModel;
use crate::skolemize::skolemized;
use crate::smt2::{
    assertion, bridge_message, entered, leaving, reached, run, scope_count, step, DeclKind,
    ErrorModel, InterpModel, Outcome, Progress,
};
use crate::text::{decimal, number, numbers_are_read_as_spelled, spells};
use crate::verdicts::{closed_formulas_are_accepted, equates};
use crate::z3_api::{nul_free, z3_answered, z3_answers, StackModel};
use crate::z3_bridge::{encodable, right_answer, BridgeError, SolverModel};
use vstd::prelude::*;
use z3::SatResult;

verus! {

/// Whether a `push` or `pop` asks for `n` scopes: its second item spells `n`, or `n` is one and
/// there is no second item that spells a 32-bit number.
pub open spec fn asks_for(items: Seq<SexprModel>, n: u32) -> bool {
    if items.len() > 1 && items[1] is Atom && (exists|k: u32| #[trigger]
        spells(items[1]->Atom_0, k as nat)) {
        spells(items[1]->Atom_0, n as nat)
    } else {
        n == 1
    }
}

proof fn count_is_asked_for(items: Seq<SexprModel>)
    ensures
        forall|n: u32| #[trigger] asks_for(items, n) <==> n == scope_count(items),
{
    if items.len() > 1 && items[1] is Atom {
        let text = items[1]->Atom_0;
        numbers_are_read_as_spelled(text);
        assert forall|n: u32| #[trigger] asks_for(items, n) implies n == scope_count(items) by {
            if spells(text, n as nat) {
                assert(number(text) == Some(n));
            }
        }
        if number(text) is Some {
            assert(spells(text, number(text)->0 as nat));
            assert(asks_for(items, scope_count(items)));
        }
    }
}

/// After entering `n` scopes there are `n` more backtracking points, all where nothing more was
/// asserted yet.
proof fn entered_stack(s: SolverModel, n: nat)
    ensures
        entered(s, n).stack.asserted == s.stack.asserted,
        entered(s, n).stack.marks.len() == s.stack.marks.len() + n,
        forall|j: int|
            0 <= j < entered(s, n).stack.marks.len() ==> #[trigger] entered(s, n).stack.marks[j]
                == (if j < s.stack.marks.len() {
                s.stack.marks[j]
            } else {
                s.stack.asserted.len()
            }),
        entered(s, n).table.scope == (if s.table.scope + n > usize::MAX {
            usize::MAX
        } else {
            (s.table.scope + n) as usize
        }),
        entered(s, n).table.entries == s.table.entries,
        entered(s, n).table.minted == s.table.minted,
        entered(s, n).interner == s.interner,
        entered(s, n).constants == s.constants,
    decreases n,
{
    if n > 0 {
        entered_stack(s, (n - 1) as nat);
    }
}

/// `(push n)` opens exactly `n` scopes, and asserts nothing.
pub proof fn push_opens_scopes(m: Progress, items: Seq<SexprModel>, n: u32)
    requires
        command_head(SexprModel::List(items)) == Some("push"@),
        asks_for(items, n),
    ensures
        ({
            let (after, outcome) = step(m, SexprModel::List(items));
            let (old, new) = (m.at.solver, after.at.solver);
            &&& outcome is Done
            &&& new.stack.marks.len() == old.stack.marks.len() + n
            &&& new.stack.marks.take(old.stack.marks.len() as int) == old.stack.marks
            &&& forall|j: int|
                old.stack.marks.len() <= j < new.stack.marks.len() ==> #[trigger] new.stack.marks[j]
                    == old.stack.asserted.len()
            &&& new.stack.asserted == old.stack.asserted
            &&& new.table.scope == (if old.table.scope + n > usize::MAX {
                usize::MAX
            } else {
                (old.table.scope + n) as usize
            })
            &&& new.table.entries == old.table.entries
            &&& after == (Progress { at: InterpModel { solver: new, ..m.at }, ..m })
        }),
{
    let cmd = SexprModel::List(items);
    heads_differ();
    count_is_asked_for(items);
    assert(cmd->List_0 == items);
    entered_stack(m.at.solver, n as nat);
    assert(items[0]->Atom_0.len() <= 6);
    let new = step(m, cmd).0.at.solver;
    assert(new == entered(m.at.solver, n as nat));
    assert(new.stack.marks.take(m.at.solver.stack.marks.len() as int)
        =~= m.at.solver.stack.marks);
}

/// `(pop n)` leaves exactly `n` scopes: what was asserted since the first of them was entered is
/// taken back, and the rest stays. The Skolem symbols all stay.
pub proof fn pop_leaves_scopes(m: Progress, items: Seq<SexprModel>, n: u32)
    requires
        command_head(SexprModel::List(items)) == Some("pop"@),
        asks_for(items, n),
    ensures
        ({
            let (after, outcome) = step(m, SexprModel::List(items));
            let (old, new) = (m.at.solver, after.at.solver);
            let len = old.stack.marks.len() as int;
            &&& outcome is Done
            &&& n <= len ==> {
                &&& after.lost == m.lost
                &&& new.stack.marks == old.stack.marks.take(len - n)
                &&& new.stack.asserted == (if n == 0 {
                    old.stack.asserted
                } else {
                    old.stack.asserted.take(old.stack.marks[len - n] as int)
                })
            }
            &&& n > len ==> after.lost
            &&& new.table.scope == (if old.table.scope <= n {
                0
            } else {
                (old.table.scope - n) as usize
            })
            &&& new.table.entries == old.table.entries
            &&& new.table.minted == old.table.minted
            &&& after == (Progress {
                at: InterpModel { solver: new, ..m.at },
                lost: after.lost,
                ..m
            })
        }),
{
    let cmd = SexprModel::List(items);
    heads_differ();
    count_is_asked_for(items);
    assert(cmd->List_0 == items);
    assert(items[0]->Atom_0.len() <= 6);
    assert(step(m, cmd) == (leaving(m, n), Outcome::Done));
    let stack = m.at.solver.stack;
    assert(stack.marks.take(stack.marks.len() as int) =~= stack.marks);
}

/// A stack with more assertions on top.
pub open spec fn with_all<T>(stack: StackModel<T>, more: Seq<T>) -> StackModel<T> {
    StackModel { asserted: stack.asserted + more, ..stack }
}

proof fn marked_stack<T>(stack: StackModel<T>, n: nat)
    ensures
        marked(stack, n).asserted == stack.asserted,
        marked(stack, n).marks.len() == stack.marks.len() + n,
        forall|j: int|
            0 <= j < marked(stack, n).marks.len() ==> #[trigger] marked(stack, n).marks[j] == (if j
                < stack.marks.len() {
                stack.marks[j]
            } else {
                stack.asserted.len()
            }),
    decreases n,
{
    if n > 0 {
        marked_stack(stack, (n - 1) as nat);
    }
}

/// Leaving the scopes that were entered takes back all that was asserted in them, and nothing else.
pub proof fn leaving_takes_back<T>(stack: StackModel<T>, more: Seq<T>, n: nat)
    requires
        n > 0,
    ensures
        with_all(marked(stack, n), more).popped(n) == stack,
{
    marked_stack(stack, n);
    let full = with_all(marked(stack, n), more);
    let back = full.popped(n);
    assert(full.marks[full.marks.len() - n] == stack.asserted.len());
    assert(back.asserted =~= stack.asserted);
    assert(back.marks =~= stack.marks);
}

/// Whether a word heads a command that is known.
pub open spec fn is_known(head: Seq<char>) -> bool {
    ||| head == "set-logic"@
    ||| head == "set-info"@
    ||| head == "set-option"@
    ||| head == "declare-sort"@
    ||| head == "declare-const"@
    ||| head == "declare-fun"@
    ||| head == "assert"@
    ||| head == "push"@
    ||| head == "pop"@
    ||| head == "check-sat"@
    ||| head == "exit"@
}

/// A command that is not known does nothing but leave a note with its head.
pub proof fn unknown_commands_are_noted(m: Progress, items: Seq<SexprModel>, head: Seq<char>)
    requires
        command_head(SexprModel::List(items)) == Some(head),
        !is_known(head),
    ensures
        step(m, SexprModel::List(items)) == (
            Progress {
                at: InterpModel {
                    diagnostics: m.at.diagnostics.push("ignored unsupported command: "@ + head),
                    ..m.at
                },
                ..m
            },
            Outcome::Done,
        ),
{
    let cmd = SexprModel::List(items);
    assert(cmd->List_0 == items);
}

/// `set-logic`, `set-info`, `set-option` and `declare-sort` do nothing, nor does an empty command.
pub proof fn settings_do_nothing(m: Progress, items: Seq<SexprModel>)
    requires
        ({
            let head = command_head(SexprModel::List(items));
            ||| head == Some("set-logic"@)
            ||| head == Some("set-info"@)
            ||| head == Some("set-option"@)
            ||| head == Some("declare-sort"@)
            ||| items.len() == 0
        }),
    ensures
        step(m, SexprModel::List(items)) == (m, Outcome::Done),
{
    let cmd = SexprModel::List(items);
    assert(cmd->List_0 == items);
}

proof fn check_and_exit_are_words()
    ensures
        forall|head: Seq<char>|
            head == "check-sat"@ || head == "exit"@ ==> {
                &&& #[trigger] head.len() <= 9
                &&& head != "set-logic"@
                &&& head != "set-info"@
                &&& head != "set-option"@
                &&& head != "declare-sort"@
                &&& head != "declare-const"@
                &&& head != "declare-fun"@
                &&& head != "assert"@
                &&& head != "push"@
                &&& head != "pop"@
            },
        "check-sat"@ != "exit"@,
{
    reveal_strlit("check-sat");
    reveal_strlit("exit");
    reveal_strlit("set-logic");
    reveal_strlit("set-info");
    reveal_strlit("set-option");
    reveal_strlit("declare-sort");
    reveal_strlit("declare-const");
    reveal_strlit("declare-fun");
    reveal_strlit("assert");
    reveal_strlit("push");
    reveal_strlit("pop");
    assert("check-sat"@[0] == 'c' && "exit"@[0] == 'e');
    assert("check-sat"@.len() == 9 && "exit"@.len() == 4);
    assert("set-logic"@[0] == 's' && "set-info"@[0] == 's' && "set-option"@[0] == 's');
    assert("declare-sort"@[0] == 'd' && "declare-const"@[0] == 'd' && "declare-fun"@[0] == 'd');
    assert("assert"@[0] == 'a' && "push"@[0] == 'p' && "pop"@[0] == 'p');
}

/// `check-sat` asks once, about what is asserted, and changes nothing else; `exit` changes nothing
/// and ends the script.
pub proof fn check_and_exit(m: Progress, items: Seq<SexprModel>)
    ensures
        command_head(SexprModel::List(items)) == Some("check-sat"@) ==> step(
            m,
            SexprModel::List(items),
        ) == (
            Progress {
                checks: m.checks.push(
                    if m.lost {
                        None
                    } else {
                        Some(m.at.solver.stack)
                    },
                ),
                ..m
            },
            Outcome::Done,
        ),
        command_head(SexprModel::List(items)) == Some("exit"@) ==> step(
            m,
            SexprModel::List(items),
        ) == (m, Outcome::Exit),
{
    let cmd = SexprModel::List(items);
    assert(cmd->List_0 == items);
    check_and_exit_are_words();
    if let Some(head) = command_head(cmd) {
        assert(head.len() >= 0);
    }
}

proof fn declarations_are_words()
    ensures
        forall|head: Seq<char>|
            head == "declare-const"@ || head == "declare-fun"@ ==> {
                &&& #[trigger] head.len() >= 11
                &&& head != "set-logic"@
                &&& head != "set-info"@
                &&& head != "set-option"@
                &&& head != "declare-sort"@
            },
        "declare-const"@ != "declare-fun"@,
{
    reveal_strlit("set-logic");
    reveal_strlit("set-info");
    reveal_strlit("set-option");
    reveal_strlit("declare-sort");
    reveal_strlit("declare-const");
    reveal_strlit("declare-fun");
    assert("set-logic"@.len() == 9 && "set-info"@.len() == 8 && "set-option"@.len() == 10);
    assert("declare-sort"@.len() == 12 && "declare-const"@.len() == 13 && "declare-fun"@.len()
        == 11);
}

/// A declaration that is complete records its name, with the number of its arguments and whether its
/// value is a truth value, and changes nothing else.
pub proof fn declarations_are_recorded(m: Progress, items: Seq<SexprModel>, name: Seq<char>)
    requires
        items.len() > 2,
        items[1] == SexprModel::Atom(name),
        ({
            let head = command_head(SexprModel::List(items));
            ||| head == Some("declare-const"@)
            ||| head == Some("declare-fun"@) && items[2] is List && items.len() > 3
                && items[2]->List_0.len() <= usize::MAX
        }),
    ensures
        ({
            let (after, outcome) = step(m, SexprModel::List(items));
            let constant = command_head(SexprModel::List(items)) == Some("declare-const"@);
            let sort = if constant {
                items[2]
            } else {
                items[3]
            };
            let kind = DeclKind {
                arity: if constant {
                    0
                } else {
                    items[2]->List_0.len() as usize
                },
                is_bool: sort == SexprModel::Atom("Bool"@),
            };
            &&& outcome is Done
            &&& after == (Progress {
                at: InterpModel { declared: m.at.declared.insert(name, kind), ..m.at },
                ..m
            })
        }),
{
    let cmd = SexprModel::List(items);
    assert(cmd->List_0 == items);
    declarations_are_words();
    reveal_strlit("Bool");
    assert("Bool"@.len() == 4);
    if let Some(head) = command_head(cmd) {
        assert(head.len() >= 0);
    }
}

/// A script runs one command after the other: the rest runs from where the first leaves off, unless
/// the first exits, fails or gets stuck.
pub proof fn scripts_run_in_order(m: Progress, first: SexprModel, rest: Seq<SexprModel>)
    ensures
        run(m, seq![first] + rest, 0) == (match step(m, first) {
            (after, Outcome::Done) => run(after, rest, 0),
            (after, Outcome::Exit) => (after, Outcome::Done),
            (after, other) => (after, other),
        }),
        run(m, Seq::empty(), 0) == (m, Outcome::Done),
{
    let all = seq![first] + rest;
    assert(all[0] == first);
    let after = step(m, first).0;
    run_shifted(after, first, rest, 0);
}

proof fn run_shifted(m: Progress, first: SexprModel, rest: Seq<SexprModel>, i: nat)
    ensures
        run(m, seq![first] + rest, i + 1) == run(m, rest, i),
    decreases rest.len() - i,
{
    let all = seq![first] + rest;
    if i < rest.len() {
        assert(all[i as int + 1] == rest[i as int]);
        run_shifted(step(m, rest[i as int]).0, first, rest, i + 1);
    }
}

/// The assertions of the first `n` commands that stand, as they are written.
pub open spec fn texts_asserted(cmds: Seq<SexprModel>, n: nat) -> StackModel<SexprModel>
    decreases n,
{
    if n == 0 {
        StackModel::empty()
    } else {
        let before = texts_asserted(cmds, (n - 1) as nat);
        let cmd = cmds[n - 1];
        if command_head(cmd) == Some("assert"@) && cmd->List_0.len() > 1 {
            before.with(cmd->List_0[1])
        } else if command_head(cmd) == Some("push"@) {
            marked(before, scope_count(cmd->List_0) as nat)
        } else if command_head(cmd) == Some("pop"@) {
            before.popped(scope_count(cmd->List_0) as nat)
        } else {
            before
        }
    }
}

/// Whether the formulas as written can hold together, with `=` for equality.
pub open spec fn texts_satisfiable(fs: Seq<SexprModel>) -> bool {
    exists|s: Structure<int>| texts_hold(s, fs)
}

/// Whether the formulas as written all hold in a structure in which `=` means equality.
pub open spec fn texts_hold<D>(s: Structure<D>, fs: Seq<SexprModel>) -> bool {
    &&& s.valid()
    &&& equates(s)
    &&& forall|i: int| 0 <= i < fs.len() ==> holds(s, Map::empty(), #[trigger] fs[i])
}

/// The scope at the start of an assertion.
spec fn outermost() -> Scope {
    Scope { env: Map::empty(), next: 0 }
}

/// Whether the texts are those that the formulas were read from.
spec fn read_from(texts: StackModel<SexprModel>, raws: StackModel<RawModel>) -> bool {
    &&& texts.marks == raws.marks
    &&& texts.asserted.len() == raws.asserted.len()
    &&& forall|i: int|
        0 <= i < texts.asserted.len() ==> {
            &&& binds_once(#[trigger] texts.asserted[i])
            &&& formula_reading(texts.asserted[i], outermost()) is Read
            &&& formula_reading(texts.asserted[i], outermost())->Read_0.0 == raws.asserted[i]
        }
    &&& forall|j: int|
        0 <= j < texts.marks.len() ==> #[trigger] texts.marks[j] <= texts.asserted.len()
    &&& forall|j: int, k: int|
        0 <= j < k < texts.marks.len() ==> #[trigger] texts.marks[j] <= #[trigger] texts.marks[k]
}

proof fn read_from_pushed(texts: StackModel<SexprModel>, raws: StackModel<RawModel>, n: nat)
    requires
        read_from(texts, raws),
    ensures
        read_from(marked(texts, n), marked(raws, n)),
    decreases n,
{
    if n > 0 {
        read_from_pushed(texts, raws, (n - 1) as nat);
        let before = marked(texts, (n - 1) as nat);
        assert(before.pushed().marks.last() == before.asserted.len());
    }
}

proof fn texts_are_read(cmds: Seq<SexprModel>, n: nat)
    requires
        n <= cmds.len(),
        carried_out(cmds, n),
        assertions_bind_once(cmds),
        !progress(cmds, n).lost,
    ensures
        read_from(texts_asserted(cmds, n), stated(cmds, n)),
        stated(cmds, n).marks.len() == progress(cmds, n).at.solver.stack.marks.len(),
    decreases n,
{
    if n > 0 {
        let k = (n - 1) as nat;
        let cmd = cmds[k as int];
        let m = progress(cmds, k);
        assert(carried_out(cmds, k));
        assert(m.lost ==> step(m, cmd).0.lost);
        texts_are_read(cmds, k);
        assert(step(m, cmd).1 is Done);
        heads_differ();
        let head = command_head(cmd);
        if head == Some("assert"@) {
            let items = cmd->List_0;
            assert(items[0]->Atom_0.len() <= 6);
            assert(step(m, cmd) == assertion(m, items));
            assert(items[0] == SexprModel::Atom("assert"@));
            assert(binds_once(items[1]));
        } else if head == Some("push"@) {
            let c = scope_count(cmd->List_0) as nat;
            read_from_pushed(texts_asserted(cmds, k), stated(cmds, k), c);
            entered_stack(m.at.solver, c);
            marked_stack(stated(cmds, k), c);
        } else if head == Some("pop"@) {
            assert(step(m, cmd).0 == leaving(m, scope_count(cmd->List_0)));
        } else {
            assert(step(m, cmd).0.at.solver == m.at.solver);
        }
    }
}

/// Definite answers are right for a script as it is written: for the assertions that stand, each
/// with the meaning that it has as an S-expression.
pub proof fn answers_fit_the_text(cmds: Seq<SexprModel>, n: nat, r: SatResult)
    requires
        n <= cmds.len(),
        carried_out(cmds, n),
        assertions_bind_once(cmds),
        plain_symbols(cmds, n, progress(cmds, n).at.solver),
        !progress(cmds, n).lost,
        right_answer(r, progress(cmds, n).at.solver.stack.asserted),
    ensures
        match r {
            SatResult::Unsat => !texts_satisfiable(texts_asserted(cmds, n).asserted),
            SatResult::Sat => texts_satisfiable(texts_asserted(cmds, n).asserted),
            SatResult::Unknown => true,
        },
{
    script_answers_are_right(cmds, n, r);
    texts_are_read(cmds, n);
    let texts = texts_asserted(cmds, n).asserted;
    let raws = stated(cmds, n).asserted;
    let names = Map::<Seq<char>, int>::empty();
    if texts_satisfiable(texts) {
        let s = choose|s: Structure<int>| texts_hold(s, texts);
        let d = choose|d: int| s.dom.contains(d);
        let env = |v: VarId| d;
        assert forall|i: int| 0 <= i < raws.len() implies raw_satisfies(
            s,
            env,
            #[trigger] raws[i],
        ) by {
            assert(agrees(names, outermost(), env));
            assert(holds(s, names, texts[i]));
            reading_keeps_meaning(texts[i], outermost(), s, names, env);
        }
        assert(raw_holds_all(s, env, raws));
    }
    if raw_satisfiable(raws) {
        let (s, env) = choose|s: Structure<int>, env: spec_fn(VarId) -> int|
            raw_holds_all(s, env, raws);
        assert forall|i: int| 0 <= i < texts.len() implies holds(
            s,
            names,
            #[trigger] texts[i],
        ) by {
            assert(agrees(names, outermost(), env));
            assert(raw_satisfies(s, env, raws[i]));
            reading_keeps_meaning(texts[i], outermost(), s, names, env);
        }
        assert(texts_hold(s, texts));
    }
}

/// An assertion that is carried out adds one to what Z3 was told, in the current scope. One that is
/// not tells Z3 nothing. Neither changes the scopes, the declarations, the notes or the answers.
pub proof fn assertions_add_one(m: Progress, items: Seq<SexprModel>)
    requires
        command_head(SexprModel::List(items)) == Some("assert"@),
    ensures
        ({
            let (after, outcome) = step(m, SexprModel::List(items));
            let (old, new) = (m.at.solver, after.at.solver);
            &&& outcome is Done ==> {
                &&& new.stack.asserted.len() == old.stack.asserted.len() + 1
                &&& new.stack.asserted.take(old.stack.asserted.len() as int) == old.stack.asserted
            }
            &&& !(outcome is Done) ==> new.stack.asserted == old.stack.asserted
            &&& !(outcome is Exit)
            &&& new.stack.marks == old.stack.marks
            &&& after == (Progress {
                at: InterpModel { solver: new, interner: after.at.interner, ..m.at },
                ..m
            })
        }),
{
    let cmd = SexprModel::List(items);
    heads_differ();
    assert(cmd->List_0 == items);
    assert(items[0]->Atom_0.len() <= 6);
    assert(step(m, cmd) == assertion(m, items));
    let old = m.at.solver.stack.asserted;
    let new = step(m, cmd).0.at.solver.stack.asserted;
    if step(m, cmd).1 is Done {
        assert(new.take(old.len() as int) =~= old);
    }
}

/// An assertion is carried out if it is a formula that has numbers for its variables, binds no name
/// twice in one quantifier, and has symbols that can be declared in Z3. What is no formula is not
/// carried out.
pub proof fn formulas_are_asserted(m: Progress, items: Seq<SexprModel>)
    requires
        command_head(SexprModel::List(items)) == Some("assert"@),
        items.len() > 1,
    ensures
        ({
            let outcome = step(m, SexprModel::List(items)).1;
            let read = formula_reading(items[1], Scope { env: Map::empty(), next: 0 });
            &&& {
                &&& is_formula(items[1])
                &&& binders(items[1]) <= u32::MAX
                &&& binds_once(items[1])
                &&& m.at.solver.table.wf()
                &&& nul_free(m.at.solver.table.prefix)
                &&& encodable(nnf(read->Read_0.0, true))
                &&& height(nnf(read->Read_0.0, true)) <= u32::MAX
            } ==> outcome is Done
            &&& !is_formula(items[1]) ==> !(outcome is Done)
        }),
{
    let cmd = SexprModel::List(items);
    let scope = outermost();
    heads_differ();
    assert(cmd->List_0 == items);
    assert(items[0]->Atom_0.len() <= 6);
    assert(step(m, cmd) == assertion(m, items));
    formulas_can_be_read(items[1], scope);
    if is_formula(items[1]) && binders(items[1]) <= u32::MAX && binds_once(items[1]) {
        let raw = formula_reading(items[1], scope)->Read_0.0;
        let f = nnf(raw, true);
        if m.at.solver.table.wf() && nul_free(m.at.solver.table.prefix) && encodable(f)
            && height(f) <= u32::MAX {
            reading_respects_scope(items[1], scope);
            assert forall|x: VarId| #[trigger] free_in(x, f) implies Seq::<VarId>::empty().contains(
                x,
            ) by {
                nnf_free(x, raw, true);
                assert(named(x, scope.env));
            }
            closed_formulas_are_accepted(m.at.solver, f);
        }
    }
}

/// How the errors of the bridge are reported.
pub proof fn bridge_errors_are_reported(v: VarId)
    ensures
        bridge_message(BridgeError::UnboundVariable(v)) == "UnboundVariable("@ + decimal(v as nat)
            + ")"@,
        bridge_message(BridgeError::UnskolemizedExistential) == "UnskolemizedExistential"@,
{
}

/// A command that is no list, or whose head is no symbol, is given up with its explanation, and
/// nothing changes.
pub proof fn malformed_commands_are_given_up(m: Progress, cmd: SexprModel)
    ensures
        cmd is Atom ==> step(m, cmd) == (
            m,
            Outcome::Fails(ErrorModel::Semantic("top-level command must be a list"@)),
        ),
        cmd is List && cmd->List_0.len() > 0 && cmd->List_0[0] is List ==> step(m, cmd) == (
            m,
            Outcome::Fails(ErrorModel::Semantic("command head must be a symbol"@)),
        ),
{
}

/// A declaration whose name is no symbol, or whose domain is no list, is given up with its
/// explanation; one that ends too early gets stuck. Nothing changes.
pub proof fn malformed_declarations_are_given_up(m: Progress, items: Seq<SexprModel>)
    ensures
        ({
            let head = command_head(SexprModel::List(items));
            let r = step(m, SexprModel::List(items));
            &&& head == Some("declare-const"@) ==> {
                &&& items.len() < 2 ==> r == (m, Outcome::Stuck)
                &&& items.len() > 1 && items[1] is List ==> r == (
                    m,
                    Outcome::Fails(ErrorModel::Semantic("declare-const: expected symbol name"@)),
                )
                &&& items.len() == 2 && items[1] is Atom ==> r == (m, Outcome::Stuck)
            }
            &&& head == Some("declare-fun"@) ==> {
                &&& items.len() < 2 ==> r == (m, Outcome::Stuck)
                &&& items.len() > 1 && items[1] is List ==> r == (
                    m,
                    Outcome::Fails(ErrorModel::Semantic("declare-fun: expected symbol name"@)),
                )
                &&& items.len() == 2 && items[1] is Atom ==> r == (m, Outcome::Stuck)
                &&& items.len() > 2 && items[1] is Atom && items[2] is Atom ==> r == (
                    m,
                    Outcome::Fails(
                        ErrorModel::Semantic("declare-fun: expected domain sort list"@),
                    ),
                )
                &&& items.len() == 3 && items[1] is Atom && items[2] is List ==> r == (
                    m,
                    Outcome::Stuck,
                )
            }
        }),
{
    let cmd = SexprModel::List(items);
    assert(cmd->List_0 == items);
    declarations_are_words();
    if let Some(head) = command_head(cmd) {
        assert(head.len() >= 0);
    }
}

/// An assertion that cannot be read is given up with the explanation of its fault, or gets stuck if
/// a part is missing, and nothing changes.
pub proof fn unreadable_assertions_are_given_up(m: Progress, items: Seq<SexprModel>)
    requires
        command_head(SexprModel::List(items)) == Some("assert"@),
    ensures
        ({
            let r = step(m, SexprModel::List(items));
            &&& items.len() < 2 ==> r == (m, Outcome::Stuck)
            &&& items.len() > 1 && !is_formula(items[1]) ==> r.0 == m && (match r.1 {
                Outcome::Fails(ErrorModel::Semantic(message)) => has_fault(
                    items[1],
                    Some(message),
                ),
                Outcome::Stuck => has_fault(items[1], None) || binders(items[1]) > u32::MAX,
                _ => false,
            })
        }),
{
    let cmd = SexprModel::List(items);
    heads_differ();
    assert(cmd->List_0 == items);
    assert(items[0]->Atom_0.len() <= 6);
    assert(step(m, cmd) == assertion(m, items));
    if items.len() > 1 {
        formulas_can_be_read(items[1], outermost());
        reported_faults_are_there(items[1], outermost());
    }
}

/// A new session has asserted nothing and entered no scope; it mints symbols that start with `sk!`
/// from one on, knows equality as a relation between two terms, and has nothing to report.
pub proof fn sessions_start_empty()
    ensures
        ({
            let start = InterpModel::fresh();
            let table = start.solver.table;
            &&& start.solver.stack.asserted.len() == 0
            &&& start.solver.stack.marks.len() == 0
            &&& start.solver.constants == 0
            &&& table.entries.dom() == Set::<KeyModel>::empty()
            &&& table.minted == 0 && table.scope == 0 && table.epoch == 0 && table.slot_count == 0
            &&& table.prefix == "sk!"@
            &&& table.soft_capacity == 4096 && table.idle_window == 1024
            &&& table.reuse_hits == 0 && table.fresh_generations == 0
            &&& start.interner.known == Set::<FormulaModel>::empty()
            &&& start.interner.hits == 0 && start.interner.total == 0
            &&& start.solver.interner == start.interner
            &&& forall|name: Seq<char>| #[trigger]
                start.declared.contains_key(name) <==> name == "="@
            &&& start.declared["="@] == (DeclKind { arity: 2, is_bool: true })
            &&& start.results.len() == 0 && start.diagnostics.len() == 0
        }),
{
    assert(InterpModel::fresh().solver.table.entries.dom() =~= Set::<KeyModel>::empty());
}

/// The state that a script reaches has the old results with one answer of Z3 for each `check-sat`, in
/// order and each for what was asserted then, and is otherwise as the commands left it.
pub proof fn results_are_answers_of_z3(at: InterpModel, before: Seq<SatResult>, m: Progress)
    requires
        reached(at, before, m),
    ensures
        at.results.len() == before.len() + m.checks.len(),
        forall|k: int| 0 <= k < before.len() ==> #[trigger] at.results[k] == before[k],
        forall|k: int|
            0 <= k < m.checks.len() && (#[trigger] m.checks[k]) is Some ==> z3_answers(
                m.checks[k]->0,
                at.results[before.len() + k],
            ),
        forall|k: int|
            0 <= k < m.checks.len() && (#[trigger] m.checks[k]) is None ==> z3_answered(
                at.results[before.len() + k],
            ),
        at.solver.table == m.at.solver.table,
        at.solver.interner == m.at.solver.interner,
        at.solver.constants == m.at.solver.constants,
        !m.lost ==> at.solver.stack == m.at.solver.stack,
        at.interner == m.at.interner,
        at.declared == m.at.declared,
        at.diagnostics == m.at.diagnostics,
{
    assert forall|k: int| 0 <= k < before.len() implies #[trigger] at.results[k] == before[k] by {
        assert(at.results.take(before.len() as int)[k] == before[k]);
    }
}

/// The same text asserted again, at any later time at which the table still has what the first
/// assertion used, is Skolemized to the same formula: no symbol is minted, and each existential
/// counts as a find. What came between, and in which scope it is asserted, makes no difference.
pub proof fn same_text_reuses(m: Progress, later: Progress, items: Seq<SexprModel>)
    requires
        command_head(SexprModel::List(items)) == Some("assert"@),
        items.len() > 1,
        formula_reading(items[1], Scope { env: Map::empty(), next: 0 }) is Read,
        retains(
            step(m, SexprModel::List(items)).0.at.solver.table,
            later.at.solver.table,
        ),
    ensures
        ({
            let raw = formula_reading(items[1], Scope { env: Map::empty(), next: 0 })->Read_0.0;
            let f = nnf(raw, true);
            let again = step(later, SexprModel::List(items)).0;
            &&& skolemized(f, Seq::empty(), later.at.solver.table).0 == skolemized(
                f,
                Seq::empty(),
                m.at.solver.table,
            ).0
            &&& only_reused(
                later.at.solver.table,
                again.at.solver.table,
                existentials(f),
            )
            &&& again.at.solver.table.minted == later.at.solver.table.minted
        }),
{
    let cmd = SexprModel::List(items);
    heads_differ();
    assert(cmd->List_0 == items);
    assert(items[0]->Atom_0.len() <= 6);
    assert(step(m, cmd) == assertion(m, items));
    assert(step(later, cmd) == assertion(later, items));
    let raw = formula_reading(items[1], outermost())->Read_0.0;
    skolemizing_again_reuses(
        nnf(raw, true),
        Seq::empty(),
        m.at.solver.table,
        later.at.solver.table,
    );
}

} // verus!
