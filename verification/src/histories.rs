//! What holds of every table of Skolem symbols that can be reached, whatever was done to it.

use crate::skolem_table::{
    among_minted, looked_up_wf, symbol, symbol_injective, EntryModel, KeyModel, ScopeId, TableModel,
};
use crate::term::{bumped, shown, shown_next, shown_small};
use crate::text::decimal;
use vstd::prelude::*;

verus! {

/// What may be done to a table.
pub enum TableEvent {
    Push,
    Pop(usize),
    Evict,
    Collect(ScopeId),
    LookUp(KeyModel),
}

/// A table after something was done to it.
pub open spec fn done(t: TableModel, e: TableEvent) -> TableModel {
    match e {
        TableEvent::Push => t.pushed(),
        TableEvent::Pop(n) => t.popped(n),
        TableEvent::Evict => t.evicted(),
        TableEvent::Collect(scope_id) => t.collected(scope_id),
        TableEvent::LookUp(key) => t.looked_up(key),
    }
}

/// A table after the first `n` events.
pub open spec fn table_after(start: TableModel, events: Seq<TableEvent>, n: nat) -> TableModel
    decreases n,
{
    if n == 0 {
        start
    } else {
        done(table_after(start, events, (n - 1) as nat), events[n - 1])
    }
}

/// Whether an event mints a symbol: it looks up a key that is not there.
pub open spec fn mints(t: TableModel, e: TableEvent) -> bool {
    e is LookUp && !t.entries.contains_key(e->LookUp_0)
}

/// How many of the first `n` events were lookups.
pub open spec fn lookups(events: Seq<TableEvent>, n: nat) -> nat
    decreases n,
{
    if n == 0 {
        0
    } else {
        lookups(events, (n - 1) as nat) + if events[n - 1] is LookUp {
            1nat
        } else {
            0
        }
    }
}

/// How many of the first `n` events minted a symbol.
pub open spec fn created(start: TableModel, events: Seq<TableEvent>, n: nat) -> nat
    decreases n,
{
    if n == 0 {
        0
    } else {
        created(start, events, (n - 1) as nat) + if mints(
            table_after(start, events, (n - 1) as nat),
            events[n - 1],
        ) {
            1nat
        } else {
            0
        }
    }
}

/// The keys whose entries an event drops.
pub open spec fn dropped_by(t: TableModel, e: TableEvent) -> Set<KeyModel> {
    t.entries.dom().difference(done(t, e).entries.dom())
}

/// How many entries the first `n` events dropped.
pub open spec fn dropped(start: TableModel, events: Seq<TableEvent>, n: nat) -> nat
    decreases n,
{
    if n == 0 {
        0
    } else {
        dropped(start, events, (n - 1) as nat) + dropped_by(
            table_after(start, events, (n - 1) as nat),
            events[n - 1],
        ).len()
    }
}

/// Events keep a table well formed.
proof fn done_wf(t: TableModel, e: TableEvent)
    requires
        t.wf(),
    ensures
        done(t, e).wf(),
        done(t, e).prefix == t.prefix,
        done(t, e).minted == t.minted + if mints(t, e) {
            1nat
        } else {
            0
        },
{
    let t2 = done(t, e);
    match e {
        TableEvent::LookUp(key) => {
            looked_up_wf(t, key);
        },
        TableEvent::Push | TableEvent::Pop(_) => {
            assert(t2.wf());
        },
        TableEvent::Evict | TableEvent::Collect(_) => {
            assert(t2.entries.dom().subset_of(t.entries.dom()));
            vstd::set_lib::lemma_len_subset(t2.entries.dom(), t.entries.dom());
            assert(forall|k: KeyModel| #[trigger]
                t2.entries.contains_key(k) ==> t.entries.contains_key(k) && t2.entries[k]
                    == t.entries[k]);
        },
    }
}

/// Every table that can be reached from a well-formed one is well formed.
pub proof fn reachable_tables_are_well_formed(start: TableModel, events: Seq<TableEvent>, n: nat)
    requires
        start.wf(),
        n <= events.len(),
    ensures
        table_after(start, events, n).wf(),
        table_after(start, events, n).prefix == start.prefix,
        table_after(start, events, n).minted == start.minted + created(start, events, n),
    decreases n,
{
    if n > 0 {
        reachable_tables_are_well_formed(start, events, (n - 1) as nat);
        done_wf(table_after(start, events, (n - 1) as nat), events[n - 1]);
    }
}

/// The `k`-th symbol that is created has the number `k` in its name, whatever became of the others,
/// and every lookup either creates a symbol or finds one. The statistics show just that.
pub proof fn creations_are_counted(
    prefix: Seq<char>,
    soft_capacity: usize,
    idle_window: u64,
    events: Seq<TableEvent>,
    n: nat,
)
    requires
        n <= events.len(),
    ensures
        ({
            let start = TableModel::empty(prefix, soft_capacity, idle_window);
            let t = table_after(start, events, n);
            let k = created(start, events, n);
            &&& t.prefix == prefix
            &&& t.minted == k
            &&& k <= lookups(events, n)
            &&& t.fresh_generations == shown(k)
            &&& t.reuse_hits == shown((lookups(events, n) - k) as nat)
            &&& lookups(events, n) <= usize::MAX ==> t.fresh_generations == k && t.reuse_hits
                == lookups(events, n) - k
            &&& n < events.len() && mints(t, events[n as int]) ==> {
                let key = events[n as int]->LookUp_0;
                &&& t.entry_for(key) == (EntryModel {
                    symbol: prefix + decimal(k + 1),
                    deps: key.deps,
                    introduced_at_scope: t.scope,
                })
                &&& done(t, events[n as int]).fresh_generations == shown(k + 1)
                &&& done(t, events[n as int]).reuse_hits == t.reuse_hits
            }
        }),
    decreases n,
{
    let start = TableModel::empty(prefix, soft_capacity, idle_window);
    let k = created(start, events, n);
    shown_next(k);
    if k <= lookups(events, n) <= usize::MAX {
        shown_small(k as usize);
        shown_small((lookups(events, n) - k) as usize);
    }
    if n > 0 {
        let m = (n - 1) as nat;
        creations_are_counted(prefix, soft_capacity, idle_window, events, m);
        let before = created(start, events, m);
        let found = (lookups(events, m) - before) as nat;
        shown_next(before);
        shown_next(found);
        if mints(table_after(start, events, m), events[n - 1]) {
            assert(k == before + 1);
            assert((lookups(events, n) - k) as nat == found);
        } else if events[n - 1] is LookUp {
            assert((lookups(events, n) - k) as nat == found + 1);
        }
    } else {
        assert(shown(0) == 0);
        assert((lookups(events, n) - k) as nat == 0);
    }
}

/// What one event does to the number of live entries: a lookup that mints a symbol adds one, beside
/// what is dropped to make room for it.
pub proof fn done_len(t: TableModel, e: TableEvent)
    requires
        t.wf(),
    ensures
        done(t, e).entries.dom().len() + dropped_by(t, e).len() == t.entries.dom().len() + if mints(
            t,
            e,
        ) {
            1nat
        } else {
            0
        },
{
    let t2 = done(t, e);
    let old = t.entries.dom();
    let gone = dropped_by(t, e);
    done_wf(t, e);
    if mints(t, e) {
        let key = e->LookUp_0;
        let kept = t.with_room().entries.dom();
        assert(kept.subset_of(old));
        vstd::set_lib::lemma_len_subset(kept, old);
        assert(t2.entries.dom() =~= kept.insert(key));
        assert(gone =~= old.difference(kept));
        vstd::set_lib::lemma_set_disjoint_lens(kept, gone);
        assert(kept + gone =~= old);
    } else {
        let kept = t2.entries.dom();
        assert(kept.subset_of(old));
        vstd::set_lib::lemma_len_subset(kept, old);
        assert(gone =~= old.difference(kept));
        vstd::set_lib::lemma_set_disjoint_lens(kept, gone);
        assert(kept + gone =~= old);
    }
}

/// The live entries are those that were created and not dropped: as many as were created, less as
/// many as were dropped. While nothing is dropped they are all there.
pub proof fn live_entries_are_counted(
    prefix: Seq<char>,
    soft_capacity: usize,
    idle_window: u64,
    events: Seq<TableEvent>,
    n: nat,
)
    requires
        n <= events.len(),
    ensures
        ({
            let start = TableModel::empty(prefix, soft_capacity, idle_window);
            let len = table_after(start, events, n).entries.dom().len();
            &&& len + dropped(start, events, n) == created(start, events, n)
            &&& len <= created(start, events, n)
            &&& dropped(start, events, n) == 0 ==> len == created(start, events, n)
        }),
    decreases n,
{
    let start = TableModel::empty(prefix, soft_capacity, idle_window);
    if n > 0 {
        let m = (n - 1) as nat;
        live_entries_are_counted(prefix, soft_capacity, idle_window, events, m);
        reachable_tables_are_well_formed(start, events, m);
        done_len(table_after(start, events, m), events[n - 1]);
    }
}

/// Whether the entry of a key stays live from after the `i`-th event until the `j`-th.
pub open spec fn kept(
    start: TableModel,
    events: Seq<TableEvent>,
    i: nat,
    j: nat,
    key: KeyModel,
) -> bool {
    forall|n: nat|
        i < n <= j ==> #[trigger] table_after(start, events, n).entries.contains_key(key)
}

/// While an entry stays live it does not change.
proof fn kept_entry(start: TableModel, events: Seq<TableEvent>, i: nat, j: nat, key: KeyModel)
    requires
        i < j <= events.len(),
        kept(start, events, i, j, key),
    ensures
        table_after(start, events, j).entries[key].entry == table_after(
            start,
            events,
            i + 1,
        ).entries[key].entry,
    decreases j,
{
    if j > i + 1 {
        let m = (j - 1) as nat;
        assert(kept(start, events, i, m, key));
        kept_entry(start, events, i, m, key);
        assert(table_after(start, events, m).entries.contains_key(key));
        assert(table_after(start, events, j).entries.contains_key(key));
    }
}

/// An entry whose symbol was minted before the `i`-th event was over has been live ever since.
proof fn old_symbol_was_kept(
    start: TableModel,
    events: Seq<TableEvent>,
    i: nat,
    j: nat,
    key: KeyModel,
)
    requires
        start.wf(),
        i < j <= events.len(),
        table_after(start, events, j).entries.contains_key(key),
        among_minted(
            start.prefix,
            table_after(start, events, i + 1).minted,
            table_after(start, events, j).entries[key].entry.symbol,
        ),
    ensures
        kept(start, events, i, j, key),
    decreases j,
{
    if j > i + 1 {
        let m = (j - 1) as nat;
        let t = table_after(start, events, m);
        let t2 = table_after(start, events, j);
        let s = t2.entries[key].entry.symbol;
        reachable_tables_are_well_formed(start, events, m);
        minted_grows(start, events, i + 1, m);
        if events[j - 1] is LookUp && events[j - 1]->LookUp_0 == key && !t.entries.contains_key(
            key,
        ) {
            let limit = table_after(start, events, i + 1).minted;
            let k = choose|k: nat| 1 <= k <= limit && s == #[trigger] symbol(start.prefix, k);
            symbol_injective(start.prefix, k, t.minted + 1);
        }
        assert(t.entries.contains_key(key));
        assert(t.entries[key].entry == t2.entries[key].entry);
        old_symbol_was_kept(start, events, i, m, key);
        assert forall|n: nat| i < n <= j implies #[trigger] table_after(
            start,
            events,
            n,
        ).entries.contains_key(key) by {}
    }
}

/// Symbols are only ever added.
proof fn minted_grows(start: TableModel, events: Seq<TableEvent>, i: nat, j: nat)
    requires
        i <= j <= events.len(),
    ensures
        table_after(start, events, i).minted <= table_after(start, events, j).minted,
    decreases j,
{
    if i < j {
        minted_grows(start, events, i, (j - 1) as nat);
    }
}

/// Two lookups, with anything done to the table between them, give the same symbol exactly if body
/// and dependencies agree and the entry was kept. The second then gives the entry of the first in
/// every part, counts as a find, and mints nothing.
pub proof fn lookups_agree_exactly_on_kept_keys(
    start: TableModel,
    events: Seq<TableEvent>,
    i: nat,
    j: nat,
)
    requires
        start.wf(),
        i < j < events.len(),
        events[i as int] is LookUp,
        events[j as int] is LookUp,
    ensures
        ({
            let k1 = events[i as int]->LookUp_0;
            let k2 = events[j as int]->LookUp_0;
            let first = table_after(start, events, i).entry_for(k1);
            let t = table_after(start, events, j);
            let after = table_after(start, events, j + 1);
            &&& first.symbol == t.entry_for(k2).symbol <==> k1 == k2 && kept(
                start,
                events,
                i,
                j,
                k1,
            )
            &&& k1 == k2 && kept(start, events, i, j, k1) ==> {
                &&& t.entry_for(k2) == first
                &&& after.reuse_hits == bumped(t.reuse_hits)
                &&& after.fresh_generations == t.fresh_generations
                &&& after.entries.dom() == t.entries.dom()
            }
        }),
{
    let k1 = events[i as int]->LookUp_0;
    let k2 = events[j as int]->LookUp_0;
    let before = table_after(start, events, i);
    let next = table_after(start, events, i + 1);
    let first = before.entry_for(k1);
    let t = table_after(start, events, j);
    reachable_tables_are_well_formed(start, events, i);
    reachable_tables_are_well_formed(start, events, i + 1);
    reachable_tables_are_well_formed(start, events, j);
    assert(next == done(before, events[i as int]));
    assert(next.entries.contains_key(k1));
    assert(next.entries[k1].entry == first);
    if k1 == k2 && kept(start, events, i, j, k1) {
        kept_entry(start, events, i, j, k1);
        assert(t.entries.contains_key(k1));
        let after = table_after(start, events, j + 1);
        assert(after == done(t, events[j as int]));
        assert(after.entries.dom() =~= t.entries.dom());
    }
    if first.symbol == t.entry_for(k2).symbol {
        assert(among_minted(start.prefix, next.minted, first.symbol));
        minted_grows(start, events, i + 1, j);
        if !t.entries.contains_key(k2) {
            let k = choose|k: nat|
                1 <= k <= next.minted && first.symbol == #[trigger] symbol(start.prefix, k);
            symbol_injective(start.prefix, k, t.minted + 1);
        }
        old_symbol_was_kept(start, events, i, j, k2);
        kept_entry(start, events, i, j, k2);
        assert(next.entries.contains_key(k2));
        assert(k1 == k2);
    }
}

/// Eviction drops exactly the entries that have been idle for more than `idle_window` scope changes,
/// wherever they were introduced, and changes nothing else.
pub proof fn eviction_drops_the_idle(t: TableModel)
    ensures
        forall|k: KeyModel| #[trigger]
            t.evicted().entries.contains_key(k) <==> t.entries.contains_key(k) && t.epoch
                - t.entries[k].last_used <= t.idle_window,
        forall|k: KeyModel| #[trigger]
            t.evicted().entries.contains_key(k) ==> t.evicted().entries[k] == t.entries[k],
        t.evicted() == (TableModel { entries: t.evicted().entries, ..t }),
{
}

/// Collecting a scope drops exactly the entries that were introduced at its depth or deeper, and
/// changes nothing else.
pub proof fn collection_drops_the_scope(t: TableModel, scope_id: ScopeId)
    ensures
        forall|k: KeyModel| #[trigger]
            t.collected(scope_id).entries.contains_key(k) <==> t.entries.contains_key(k)
                && t.entries[k].entry.introduced_at_scope < scope_id,
        forall|k: KeyModel| #[trigger]
            t.collected(scope_id).entries.contains_key(k) ==> t.collected(scope_id).entries[k]
                == t.entries[k],
        t.collected(scope_id) == (TableModel { entries: t.collected(scope_id).entries, ..t }),
{
}

/// A lookup leaves the key that it looks up live and used now. Of the other entries it drops those
/// that have been idle for more than `idle_window` scope changes, if it mints a symbol into a table
/// that has reached its capacity, and none otherwise; those that stay are as they were.
pub proof fn lookups_drop_only_the_idle(t: TableModel, key: KeyModel)
    ensures
        ({
            let after = t.looked_up(key);
            let full = !t.entries.contains_key(key) && t.entries.dom().len() >= t.soft_capacity;
            &&& after.entries.contains_key(key)
            &&& after.entries[key].last_used == t.epoch
            &&& after.entries[key].entry == t.entry_for(key)
            &&& forall|k: KeyModel|
                k != key ==> (#[trigger] after.entries.contains_key(k) <==> t.entries.contains_key(
                    k,
                ) && (full ==> t.epoch - t.entries[k].last_used <= t.idle_window))
            &&& forall|k: KeyModel|
                k != key && #[trigger] after.entries.contains_key(k) ==> after.entries[k]
                    == t.entries[k]
            &&& after.scope == t.scope && after.epoch == t.epoch && after.prefix == t.prefix
            &&& after.soft_capacity == t.soft_capacity && after.idle_window == t.idle_window
        }),
{
}

/// Entering and leaving scopes changes the depth by as many, down to the outermost scope; each such
/// change is one tick of the clock, and the entries stay.
pub proof fn scopes_are_counted(t: TableModel, n: usize)
    ensures
        t.scope < usize::MAX ==> t.pushed().scope == t.scope + 1,
        t.scope < usize::MAX ==> t.pushed().popped(1).scope == t.scope,
        n <= t.scope ==> t.popped(n).scope == t.scope - n,
        n >= t.scope ==> t.popped(n).scope == 0,
        t.epoch < u64::MAX ==> t.pushed().epoch == t.epoch + 1 && t.popped(n).epoch == t.epoch + 1,
        t.pushed() == (TableModel { scope: t.pushed().scope, epoch: t.pushed().epoch, ..t }),
        t.popped(n) == (TableModel { scope: t.popped(n).scope, epoch: t.popped(n).epoch, ..t }),
{
}

/// How many of the events from `i` up to `n` entered or left scopes.
pub open spec fn scope_changes(events: Seq<TableEvent>, i: nat, n: nat) -> nat
    decreases n,
{
    if n <= i {
        0
    } else {
        scope_changes(events, i, (n - 1) as nat) + if events[n - 1] is Push || events[n - 1] is Pop {
            1nat
        } else {
            0
        }
    }
}

proof fn scope_changes_add(events: Seq<TableEvent>, i: nat, j: nat, n: nat)
    requires
        i <= j <= n,
    ensures
        scope_changes(events, i, n) == scope_changes(events, i, j) + scope_changes(events, j, n),
    decreases n,
{
    if j < n {
        scope_changes_add(events, i, j, (n - 1) as nat);
    }
}

/// The clock shows how many scope changes there were.
pub proof fn clock_counts_scope_changes(start: TableModel, events: Seq<TableEvent>, n: nat)
    requires
        n <= events.len(),
        start.epoch + scope_changes(events, 0, n) <= u64::MAX,
    ensures
        table_after(start, events, n).epoch == start.epoch + scope_changes(events, 0, n),
    decreases n,
{
    if n > 0 {
        clock_counts_scope_changes(start, events, (n - 1) as nat);
    }
}

/// The last of the first `n` events that looked up a key, if the key is live after them.
proof fn last_lookup(start: TableModel, events: Seq<TableEvent>, n: nat, key: KeyModel) -> (i: nat)
    requires
        n <= events.len(),
        !start.entries.contains_key(key),
        table_after(start, events, n).entries.contains_key(key),
    ensures
        i < n,
        events[i as int] == TableEvent::LookUp(key),
        forall|j: int| i < j < n ==> #[trigger] events[j] != TableEvent::LookUp(key),
        table_after(start, events, n).entries[key].last_used == table_after(start, events, i).epoch,
    decreases n,
{
    let m = (n - 1) as nat;
    let t = table_after(start, events, m);
    if events[m as int] == TableEvent::LookUp(key) {
        m
    } else {
        assert(t.entries.contains_key(key));
        assert(table_after(start, events, n).entries[key].last_used == t.entries[key].last_used);
        last_lookup(start, events, m, key)
    }
}

/// After an eviction every live entry was looked up no more than `idle_window` scope changes ago,
/// wherever it was introduced; and an entry goes only if its last lookup is longer ago.
pub proof fn idle_time_decides_eviction(
    prefix: Seq<char>,
    soft_capacity: usize,
    idle_window: u64,
    events: Seq<TableEvent>,
    n: nat,
    key: KeyModel,
) -> (i: nat)
    requires
        n <= events.len(),
        scope_changes(events, 0, n) <= u64::MAX,
        table_after(
            TableModel::empty(prefix, soft_capacity, idle_window),
            events,
            n,
        ).entries.contains_key(key),
    ensures
        i < n,
        events[i as int] == TableEvent::LookUp(key),
        forall|j: int| i < j < n ==> #[trigger] events[j] != TableEvent::LookUp(key),
        table_after(
            TableModel::empty(prefix, soft_capacity, idle_window),
            events,
            n,
        ).evicted().entries.contains_key(key) <==> scope_changes(events, i, n) <= idle_window,
{
    let start = TableModel::empty(prefix, soft_capacity, idle_window);
    let i = last_lookup(start, events, n, key);
    scope_changes_add(events, 0, i, n);
    clock_counts_scope_changes(start, events, n);
    clock_counts_scope_changes(start, events, i);
    limits_stay(start, events, n);
    i
}

/// Capacity and window stay what they were.
proof fn limits_stay(start: TableModel, events: Seq<TableEvent>, n: nat)
    requires
        n <= events.len(),
    ensures
        table_after(start, events, n).soft_capacity == start.soft_capacity,
        table_after(start, events, n).idle_window == start.idle_window,
        table_after(start, events, n).prefix == start.prefix,
    decreases n,
{
    if n > 0 {
        limits_stay(start, events, (n - 1) as nat);
    }
}

/// Slots are used again whenever one is free: there are as many as there were ever entries live at
/// the same time, and no more.
pub proof fn slots_are_the_peak(
    prefix: Seq<char>,
    soft_capacity: usize,
    idle_window: u64,
    events: Seq<TableEvent>,
    n: nat,
) -> (peak: nat)
    requires
        n <= events.len(),
    ensures
        ({
            let start = TableModel::empty(prefix, soft_capacity, idle_window);
            let slots = table_after(start, events, n).slot_count;
            &&& peak <= n
            &&& table_after(start, events, peak).entries.dom().len() == slots
            &&& forall|m: nat|
                m <= n ==> (#[trigger] table_after(start, events, m)).entries.dom().len() <= slots
        }),
    decreases n,
{
    let start = TableModel::empty(prefix, soft_capacity, idle_window);
    if n == 0 {
        assert(start.entries.dom().len() == 0);
        0
    } else {
        let k = (n - 1) as nat;
        let before = slots_are_the_peak(prefix, soft_capacity, idle_window, events, k);
        let t = table_after(start, events, k);
        let after = table_after(start, events, n);
        reachable_tables_are_well_formed(start, events, k);
        reachable_tables_are_well_formed(start, events, n);
        done_len(t, events[k as int]);
        if mints(t, events[k as int]) {
            let key = events[k as int]->LookUp_0;
            let room = t.with_room().entries.dom();
            assert(room.subset_of(t.entries.dom()));
            vstd::set_lib::lemma_len_subset(room, t.entries.dom());
            assert(after.entries.dom() =~= room.insert(key));
            assert(after.entries.dom().len() == room.len() + 1);
            if room.len() < t.slot_count {
                assert forall|m: nat| m <= n implies (#[trigger] table_after(
                    start,
                    events,
                    m,
                )).entries.dom().len() <= after.slot_count by {}
                before
            } else {
                assert forall|m: nat| m <= n implies (#[trigger] table_after(
                    start,
                    events,
                    m,
                )).entries.dom().len() <= after.slot_count by {}
                n
            }
        } else {
            assert(after.slot_count == t.slot_count);
            assert forall|m: nat| m <= n implies (#[trigger] table_after(
                start,
                events,
                m,
            )).entries.dom().len() <= after.slot_count by {}
            before
        }
    }
}

/// A new table is empty, at the outermost scope, with the limits that it was made with.
pub proof fn new_tables_are_empty(prefix: Seq<char>, soft_capacity: usize, idle_window: u64)
    ensures
        ({
            let t = TableModel::empty(prefix, soft_capacity, idle_window);
            &&& t.entries.dom() == Set::<KeyModel>::empty()
            &&& t.slot_count == 0 && t.scope == 0 && t.epoch == 0 && t.minted == 0
            &&& t.prefix == prefix
            &&& t.soft_capacity == soft_capacity
            &&& t.idle_window == idle_window
            &&& t.reuse_hits == 0 && t.fresh_generations == 0
            &&& t.wf()
        }),
{
    let t = TableModel::empty(prefix, soft_capacity, idle_window);
    assert(t.entries.dom() =~= Set::<KeyModel>::empty());
}

} // verus!
