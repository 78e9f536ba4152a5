//! What the table of Skolem symbols keeps from one formula to the next.

use crate::model::{
    existentials, height, subst_existentials, subst_height, FormulaModel, VarId,
};
use crate::skolem_table::{
    among_minted, fresh_symbol_is_new, looked_up_wf, KeyModel, TableModel,
};
use crate::skolemize::{skolem_term, skolemized, witnessed};
use crate::soundness::{ahead, recorded};
use crate::term::{shown, shown_more, shown_next, shown_small};
use vstd::prelude::*;

verus! {

/// Whether an entry was used since the last scope change.
pub open spec fn in_use(t: TableModel, k: KeyModel) -> bool {
    t.entries.contains_key(k) && t.entries[k].last_used == t.epoch
}

/// Whether `t2` still has every entry that was in use in `t1`.
pub open spec fn retains(t1: TableModel, t2: TableModel) -> bool {
    forall|k: KeyModel| #[trigger]
        in_use(t1, k) ==> {
            &&& t2.entries.contains_key(k)
            &&& t2.entries[k].entry == t1.entries[k].entry
            &&& t1.epoch <= t2.entries[k].last_used <= t2.epoch
        }
}

/// Whether `t2` is `t1` after `n` lookups that all found their symbol.
pub open spec fn only_reused(t1: TableModel, t2: TableModel, n: nat) -> bool {
    &&& t2 == (TableModel {
        entries: t2.entries,
        reuse_hits: shown(t1.reuse_hits as nat + n),
        ..t1
    })
    &&& t2.entries.dom() == t1.entries.dom()
    &&& forall|k: KeyModel| #[trigger]
        t1.entries.contains_key(k) ==> {
            &&& t2.entries[k].entry == t1.entries[k].entry
            &&& t2.entries[k].last_used == t1.entries[k].last_used || t2.entries[k].last_used
                == t1.epoch
        }
}

/// What is in use stays in use through a pass: a full table drops only what has been idle.
pub proof fn pass_retains(f: FormulaModel, deps: Seq<VarId>, t: TableModel)
    ensures
        skolemized(f, deps, t).1.epoch == t.epoch,
        skolemized(f, deps, t).1.idle_window == t.idle_window,
        retains(t, skolemized(f, deps, t).1),
    decreases height(f),
{
    match f {
        FormulaModel::And(l, r) | FormulaModel::Or(l, r) => {
            let t1 = skolemized(*l, deps, t).1;
            pass_retains(*l, deps, t);
            pass_retains(*r, deps, t1);
            assert forall|k: KeyModel| #[trigger] in_use(t, k) implies in_use(t1, k) by {}
        },
        FormulaModel::ForAll(v, body) => {
            pass_retains(*body, deps.push(v), t);
        },
        FormulaModel::Exists(v, body) => {
            let key = KeyModel { body: *body, deps };
            let t1 = t.looked_up(key);
            subst_height(*body, v, skolem_term(t.entry_for(key).symbol, deps));
            pass_retains(witnessed(v, *body, deps, t), deps, t1);
            assert forall|k: KeyModel| #[trigger] in_use(t, k) implies in_use(t1, k)
                && t1.entries[k].entry == t.entries[k].entry by {}
        },
        _ => {},
    }
}

/// Scope changes forget nothing.
pub proof fn scope_changes_retain(t1: TableModel, t2: TableModel, n: usize)
    requires
        retains(t1, t2),
    ensures
        retains(t1, t1),
        retains(t1, t2.pushed()),
        retains(t1, t2.popped(n)),
{
    assert forall|k: KeyModel| #[trigger] in_use(t1, k) implies t2.entries.contains_key(k)
        && t2.entries[k].last_used <= t2.pushed().epoch by {}
    assert(retains(t1, t2.pushed()));
    assert(retains(t1, t2.popped(n)));
}

/// Neither a sweep nor the pass over another formula forgets what was in use no more than
/// `idle_window` scope changes ago.
pub proof fn work_within_the_window_retains(
    t1: TableModel,
    t2: TableModel,
    f: FormulaModel,
    deps: Seq<VarId>,
)
    requires
        retains(t1, t2),
        t2.epoch - t1.epoch <= t2.idle_window,
    ensures
        retains(t1, t2.evicted()),
        retains(t1, skolemized(f, deps, t2).1),
    decreases height(f),
{
    match f {
        FormulaModel::And(l, r) | FormulaModel::Or(l, r) => {
            work_within_the_window_retains(t1, t2, *l, deps);
            pass_retains(*l, deps, t2);
            work_within_the_window_retains(t1, skolemized(*l, deps, t2).1, *r, deps);
        },
        FormulaModel::ForAll(v, body) => {
            work_within_the_window_retains(t1, t2, *body, deps.push(v));
        },
        FormulaModel::Exists(v, body) => {
            let key = KeyModel { body: *body, deps };
            let t3 = t2.looked_up(key);
            assert forall|k: KeyModel| #[trigger] in_use(t1, k) implies {
                &&& t3.entries.contains_key(k)
                &&& t3.entries[k].entry == t1.entries[k].entry
                &&& t1.epoch <= t3.entries[k].last_used <= t3.epoch
            } by {}
            subst_height(*body, v, skolem_term(t2.entry_for(key).symbol, deps));
            work_within_the_window_retains(t1, t3, witnessed(v, *body, deps, t2), deps);
        },
        _ => {},
    }
}

/// The pass over a formula that was Skolemized before, under the same variables, gives the same
/// result and mints nothing, as long as the table retains what the first pass used. It finds one
/// symbol for each existential of the formula.
pub proof fn skolemizing_again_reuses(
    f: FormulaModel,
    deps: Seq<VarId>,
    t: TableModel,
    later: TableModel,
)
    requires
        retains(skolemized(f, deps, t).1, later),
    ensures
        skolemized(f, deps, later).0 == skolemized(f, deps, t).0,
        only_reused(later, skolemized(f, deps, later).1, existentials(f)),
    decreases height(f),
{
    let end = skolemized(f, deps, t).1;
    match f {
        FormulaModel::And(l, r) | FormulaModel::Or(l, r) => {
            let t1 = skolemized(*l, deps, t).1;
            pass_retains(*l, deps, t);
            pass_retains(*r, deps, t1);
            assert(retains(t1, later)) by {
                assert forall|k: KeyModel| #[trigger] in_use(t1, k) implies in_use(end, k)
                    && end.entries[k].entry == t1.entries[k].entry by {}
            }
            skolemizing_again_reuses(*l, deps, t, later);
            let mid = skolemized(*l, deps, later).1;
            assert(retains(end, mid)) by {
                assert forall|k: KeyModel| #[trigger] in_use(end, k) implies {
                    &&& mid.entries.contains_key(k)
                    &&& mid.entries[k].entry == end.entries[k].entry
                    &&& end.epoch <= mid.entries[k].last_used <= mid.epoch
                } by {
                    assert(later.entries.contains_key(k));
                    assert(later.entries.dom().contains(k));
                }
            }
            skolemizing_again_reuses(*r, deps, t1, mid);
            shown_more(later.reuse_hits as nat + existentials(*l), existentials(*r));
            let last = skolemized(*r, deps, mid).1;
            assert forall|k: KeyModel| #[trigger] later.entries.contains_key(k) implies {
                &&& last.entries[k].entry == later.entries[k].entry
                &&& last.entries[k].last_used == later.entries[k].last_used
                    || last.entries[k].last_used == later.epoch
            } by {
                assert(later.entries.dom().contains(k));
                assert(mid.entries.contains_key(k));
            }
        },
        FormulaModel::ForAll(v, body) => {
            skolemizing_again_reuses(*body, deps.push(v), t, later);
        },
        FormulaModel::Exists(v, body) => {
            let key = KeyModel { body: *body, deps };
            let t1 = t.looked_up(key);
            let new = witnessed(v, *body, deps, t);
            subst_height(*body, v, skolem_term(t.entry_for(key).symbol, deps));
            pass_retains(new, deps, t1);
            assert(in_use(t1, key));
            assert(in_use(end, key));
            assert(later.entry_for(key).symbol == t.entry_for(key).symbol);
            let next = later.looked_up(key);
            assert(retains(end, next)) by {
                assert forall|k: KeyModel| #[trigger] in_use(end, k) implies {
                    &&& next.entries.contains_key(k)
                    &&& next.entries[k].entry == end.entries[k].entry
                    &&& end.epoch <= next.entries[k].last_used <= next.epoch
                } by {}
            }
            skolemizing_again_reuses(new, deps, t1, next);
            subst_existentials(*body, v, skolem_term(t.entry_for(key).symbol, deps));
            shown_small(later.reuse_hits);
            shown_next(later.reuse_hits as nat);
            shown_more((later.reuse_hits + 1) as nat, existentials(*body));
            let last = skolemized(new, deps, next).1;
            assert(next.entries.dom() =~= later.entries.dom());
            assert forall|k: KeyModel| #[trigger] later.entries.contains_key(k) implies {
                &&& last.entries[k].entry == later.entries[k].entry
                &&& last.entries[k].last_used == later.entries[k].last_used
                    || last.entries[k].last_used == later.epoch
            } by {
                assert(next.entries.contains_key(k));
            }
        },
        _ => {
            shown_small(later.reuse_hits);
        },
    }
}

/// What may be done with a table between two passes.
pub enum Work {
    Push,
    Pop(usize),
    Pass(FormulaModel, Seq<VarId>),
}

/// A table after the first `n` pieces of work.
pub open spec fn worked(t: TableModel, works: Seq<Work>, n: nat) -> TableModel
    decreases n,
{
    if n == 0 {
        t
    } else {
        let before = worked(t, works, (n - 1) as nat);
        match works[n - 1] {
            Work::Push => before.pushed(),
            Work::Pop(k) => before.popped(k),
            Work::Pass(f, deps) => skolemized(f, deps, before).1,
        }
    }
}

/// How many existentials the first `n` pieces of work have.
pub open spec fn work_existentials(works: Seq<Work>, n: nat) -> nat
    decreases n,
{
    if n == 0 {
        0
    } else {
        work_existentials(works, (n - 1) as nat) + match works[n - 1] {
            Work::Pass(f, _) => existentials(f),
            _ => 0,
        }
    }
}

/// A pass for which there is room drops nothing.
proof fn pass_with_room_retains(
    t1: TableModel,
    t2: TableModel,
    f: FormulaModel,
    deps: Seq<VarId>,
)
    requires
        retains(t1, t2),
        t2.entries.dom().finite(),
        t2.entries.dom().len() + existentials(f) <= t2.soft_capacity,
    ensures
        retains(t1, skolemized(f, deps, t2).1),
        skolemized(f, deps, t2).1.entries.dom().finite(),
        skolemized(f, deps, t2).1.entries.dom().len() <= t2.entries.dom().len() + existentials(f),
        skolemized(f, deps, t2).1.soft_capacity == t2.soft_capacity,
    decreases height(f),
{
    match f {
        FormulaModel::And(l, r) | FormulaModel::Or(l, r) => {
            pass_with_room_retains(t1, t2, *l, deps);
            pass_with_room_retains(t1, skolemized(*l, deps, t2).1, *r, deps);
        },
        FormulaModel::ForAll(v, body) => {
            pass_with_room_retains(t1, t2, *body, deps.push(v));
        },
        FormulaModel::Exists(v, body) => {
            let key = KeyModel { body: *body, deps };
            let rep = skolem_term(t2.entry_for(key).symbol, deps);
            let t3 = t2.looked_up(key);
            assert(t3.entries.dom() =~= t2.entries.dom().insert(key));
            assert forall|k: KeyModel| #[trigger] in_use(t1, k) implies {
                &&& t3.entries.contains_key(k)
                &&& t3.entries[k].entry == t1.entries[k].entry
                &&& t1.epoch <= t3.entries[k].last_used <= t3.epoch
            } by {}
            subst_height(*body, v, rep);
            subst_existentials(*body, v, rep);
            pass_with_room_retains(t1, t3, witnessed(v, *body, deps, t2), deps);
        },
        _ => {},
    }
}

/// Work keeps what was in use before it, if it takes no more than `idle_window` scope changes, or
/// if there is room for all its existentials.
pub proof fn work_retains(t: TableModel, works: Seq<Work>, n: nat)
    requires
        n <= works.len(),
        worked(t, works, n).epoch - t.epoch <= t.idle_window || t.entries.dom().finite()
            && t.entries.dom().len() + work_existentials(works, n) <= t.soft_capacity,
    ensures
        retains(t, worked(t, works, n)),
        t.epoch <= worked(t, works, n).epoch,
        worked(t, works, n).idle_window == t.idle_window,
        t.entries.dom().finite() && t.entries.dom().len() + work_existentials(works, n)
            <= t.soft_capacity ==> {
            let len = worked(t, works, n).entries.dom().len();
            &&& worked(t, works, n).entries.dom().finite()
            &&& len <= t.entries.dom().len() + work_existentials(works, n)
            &&& worked(t, works, n).soft_capacity == t.soft_capacity
        },
    decreases n,
{
    if n > 0 {
        let k = (n - 1) as nat;
        let before = worked(t, works, k);
        if let Work::Pass(f, deps) = works[n - 1] {
            pass_retains(f, deps, before);
        }
        work_retains(t, works, k);
        match works[n - 1] {
            Work::Push => {
                scope_changes_retain(t, before, 0);
            },
            Work::Pop(m) => {
                scope_changes_retain(t, before, m);
            },
            Work::Pass(f, deps) => {
                if t.entries.dom().finite() && t.entries.dom().len() + work_existentials(works, n)
                    <= t.soft_capacity {
                    pass_with_room_retains(t, before, f, deps);
                } else {
                    work_within_the_window_retains(t, before, f, deps);
                }
            },
        }
    }
}

/// Skolemizing, then entering and leaving scopes and Skolemizing anything else, then Skolemizing
/// the first formula again: the result is the same, nothing is minted, and each existential of the
/// formula counts as a find. The work between takes no more than `idle_window` scope changes, or
/// the table has room for all its existentials; beyond that, entries may have been dropped.
pub proof fn skolemizing_again_after_work(
    f: FormulaModel,
    deps: Seq<VarId>,
    t: TableModel,
    works: Seq<Work>,
)
    requires
        ({
            let t1 = skolemized(f, deps, t).1;
            ||| worked(t1, works, works.len()).epoch - t1.epoch <= t1.idle_window
            ||| t1.entries.dom().finite() && t1.entries.dom().len() + work_existentials(
                works,
                works.len(),
            ) <= t1.soft_capacity
        }),
    ensures
        ({
            let (first, t1) = skolemized(f, deps, t);
            let later = worked(t1, works, works.len());
            let (second, t2) = skolemized(f, deps, later);
            &&& second == first
            &&& only_reused(later, t2, existentials(f))
        }),
{
    let t1 = skolemized(f, deps, t).1;
    work_retains(t1, works, works.len());
    skolemizing_again_reuses(f, deps, t, worked(t1, works, works.len()));
}

/// Asserting, leaving the scope, entering one again and asserting the same formula gives the same
/// result. The second time no symbol is minted, and each existential of the formula counts as a
/// find.
pub proof fn backtracking_reuses(f: FormulaModel, deps: Seq<VarId>, t: TableModel)
    ensures
        ({
            let (first, t1) = skolemized(f, deps, t.pushed());
            let (second, t2) = skolemized(f, deps, t1.popped(1).pushed());
            &&& second == first
            &&& t2.minted == t1.minted
            &&& t2.fresh_generations == t1.fresh_generations
            &&& t2.entries.dom() == t1.entries.dom()
            &&& t2.reuse_hits == shown(t1.reuse_hits as nat + existentials(f))
        }),
{
    let t1 = skolemized(f, deps, t.pushed()).1;
    scope_changes_retain(t1, t1, 1);
    scope_changes_retain(t1, t1.popped(1), 1);
    skolemizing_again_reuses(f, deps, t.pushed(), t1.popped(1).pushed());
}

/// One symbol stands for one key: the symbol that a lookup gives is none that was ever minted for
/// another body or under other variables, as the record of what was minted shows.
pub proof fn symbol_has_one_key(
    t: TableModel,
    h: Map<Seq<char>, KeyModel>,
    s: Seq<char>,
    key: KeyModel,
    limit: nat,
)
    requires
        t.minted < limit,
        recorded(t, h, limit),
        h.contains_key(s),
        h[s] != key,
    ensures
        t.entry_for(key).symbol != s,
{
    if !t.entries.contains_key(key) {
        assert(ahead(t, t.entry_for(key).symbol, limit));
    }
}

/// Two lookups with different keys, one after the other, give different symbols.
pub proof fn different_keys_get_different_symbols(t: TableModel, k1: KeyModel, k2: KeyModel)
    requires
        t.wf(),
        k1 != k2,
    ensures
        t.entry_for(k1).symbol != t.looked_up(k1).entry_for(k2).symbol,
{
    let t1 = t.looked_up(k1);
    looked_up_wf(t, k1);
    assert(t1.entries.contains_key(k1));
    if !t1.entries.contains_key(k2) {
        fresh_symbol_is_new(t1, t.entry_for(k1).symbol);
    }
}

/// An entry that was dropped and is looked up again gets a new name.
pub proof fn dropped_entry_gets_a_new_name(t: TableModel, later: TableModel, key: KeyModel)
    requires
        t.wf(),
        t.entries.contains_key(key),
        later.prefix == t.prefix,
        later.minted >= t.minted,
        !later.entries.contains_key(key),
    ensures
        later.entry_for(key).symbol != t.entries[key].entry.symbol,
{
    let s = t.entries[key].entry.symbol;
    let i = choose|i: nat|
        1 <= i <= t.minted && s == #[trigger] crate::skolem_table::symbol(t.prefix, i);
    assert(among_minted(later.prefix, later.minted, s)) by {
        assert(s == crate::skolem_table::symbol(later.prefix, i));
    }
    fresh_symbol_is_new(later, s);
}

/// Slots are used again: after a sweep that dropped something, and while there are fewer live
/// entries than slots, minting takes no new slot.
pub proof fn dropped_slots_are_recycled(t: TableModel, key: KeyModel)
    requires
        t.wf(),
        t.evicted().entries.dom() != t.entries.dom(),
    ensures
        t.evicted().looked_up(key).slot_count == t.slot_count,
{
    let e = t.evicted();
    assert(e.entries.dom().subset_of(t.entries.dom()));
    assert(e.entries.dom().len() < t.entries.dom().len()) by {
        let k = choose|k: KeyModel| t.entries.dom().contains(k) && !e.entries.dom().contains(k);
        assert(exists|k: KeyModel| t.entries.dom().contains(k) && !e.entries.dom().contains(k)) by {
            if forall|k: KeyModel| t.entries.dom().contains(k) ==> e.entries.dom().contains(k) {
                assert(e.entries.dom() =~= t.entries.dom());
            }
        }
        vstd::set_lib::lemma_len_subset(e.entries.dom(), t.entries.dom().remove(k));
    }
    assert(e.evicted().entries =~= e.entries);
}

} // verus!
