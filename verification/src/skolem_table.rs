//! The table of Skolem symbols.
//!
//! A symbol is found again by its full key: the body of the existential and the exact list of
//! universal variables that its witness may depend on. That key alone makes reuse sound, so
//! leaving a scope does not forget anything. Entries live in slots, and an index by fingerprint
//! leads to them. An entry that has been idle for longer than the configured number of scope
//! changes is cold; when the table would grow past its soft capacity the cold entries are dropped
//! and their slots are used again. Symbol names come from a counter of their own that never goes
//! back, so a recycled slot never brings back a name.

use crate::fingerprint::{add_formula, fold, fold_formula};
use crate::model::FormulaModel;
use crate::term::{bump_count, bumped, Formula};
use crate::text::{concat, decimal, Counter};
use std::collections::HashMap;
use std::rc::Rc;
use vstd::prelude::*;
use vstd::slice::slice_to_vec;

pub use crate::model::VarId;

verus! {

/// The depth of a scope; the outermost scope is zero.
pub type ScopeId = usize;

/// How many live entries a table holds before it starts to drop cold ones.
pub const DEFAULT_SOFT_CAPACITY: usize = 4096;

/// How many scope changes an entry may stay unused before it is cold.
pub const DEFAULT_IDLE_WINDOW: u64 = 1024;

/// What a Skolem symbol is looked up by.
#[verifier::ext_equal]
pub struct KeyModel {
    pub body: FormulaModel,
    pub deps: Seq<VarId>,
}

/// A Skolem symbol.
#[verifier::ext_equal]
pub struct EntryModel {
    pub symbol: Seq<char>,
    pub deps: Seq<VarId>,
    pub introduced_at_scope: ScopeId,
}

/// A Skolem symbol in a table, with the epoch of its last use.
#[verifier::ext_equal]
pub struct CachedModel {
    pub entry: EntryModel,
    pub last_used: u64,
}

/// The state of a table.
#[verifier::ext_equal]
pub struct TableModel {
    /// The live entries.
    pub entries: Map<KeyModel, CachedModel>,
    /// How many slots there are, live or free.
    pub slot_count: nat,
    /// The depth of the current scope.
    pub scope: ScopeId,
    /// How many scope changes there have been.
    pub epoch: u64,
    /// How many symbols were ever minted.
    pub minted: nat,
    pub prefix: Seq<char>,
    pub soft_capacity: usize,
    pub idle_window: u64,
    /// How many lookups found their symbol.
    pub reuse_hits: usize,
    /// How many lookups minted a symbol.
    pub fresh_generations: usize,
}

/// The `n`-th symbol that a table mints.
pub open spec fn symbol(prefix: Seq<char>, n: nat) -> Seq<char> {
    prefix + decimal(n)
}

/// Whether `s` is one of the first `n` symbols.
pub open spec fn among_minted(prefix: Seq<char>, n: nat, s: Seq<char>) -> bool {
    exists|i: nat| 1 <= i <= n && s == #[trigger] symbol(prefix, i)
}

impl TableModel {
    /// A table that has seen nothing.
    pub open spec fn empty(prefix: Seq<char>, soft_capacity: usize, idle_window: u64) -> TableModel {
        TableModel {
            entries: Map::empty(),
            slot_count: 0,
            scope: 0,
            epoch: 0,
            minted: 0,
            prefix,
            soft_capacity,
            idle_window,
            reuse_hits: 0,
            fresh_generations: 0,
        }
    }

    /// Every live symbol was minted here for its own key, and no two keys share one.
    pub open spec fn wf(self) -> bool {
        &&& self.entries.dom().finite()
        &&& self.entries.dom().len() <= self.slot_count
        &&& forall|k: KeyModel| #[trigger]
            self.entries.contains_key(k) ==> {
                &&& self.entries[k].entry.deps == k.deps
                &&& self.entries[k].last_used <= self.epoch
                &&& among_minted(self.prefix, self.minted, self.entries[k].entry.symbol)
            }
        &&& forall|k1: KeyModel, k2: KeyModel|
            #![trigger self.entries.contains_key(k1), self.entries.contains_key(k2)]
            self.entries.contains_key(k1) && self.entries.contains_key(k2)
                && self.entries[k1].entry.symbol == self.entries[k2].entry.symbol ==> k1 == k2
    }

    /// One scope deeper. The depth and the clock stay at the largest number they can hold.
    pub open spec fn pushed(self) -> TableModel {
        TableModel {
            scope: if self.scope == usize::MAX {
                usize::MAX
            } else {
                (self.scope + 1) as usize
            },
            epoch: self.ticked(),
            ..self
        }
    }

    /// `n` scopes less deep, or the outermost one.
    pub open spec fn popped(self, n: usize) -> TableModel {
        TableModel {
            scope: if self.scope <= n {
                0
            } else {
                (self.scope - n) as usize
            },
            epoch: self.ticked(),
            ..self
        }
    }

    /// The clock after one more scope change.
    pub open spec fn ticked(self) -> u64 {
        if self.epoch == u64::MAX {
            u64::MAX
        } else {
            (self.epoch + 1) as u64
        }
    }

    /// Whether an entry has been idle for longer than the window.
    pub open spec fn is_cold(self, c: CachedModel) -> bool {
        self.epoch - c.last_used > self.idle_window
    }

    /// Without the cold entries.
    pub open spec fn evicted(self) -> TableModel {
        TableModel {
            entries: Map::new(
                |k: KeyModel| self.entries.contains_key(k) && !self.is_cold(self.entries[k]),
                |k: KeyModel| self.entries[k],
            ),
            ..self
        }
    }

    /// Without the entries that were introduced at depth `scope_id` or deeper.
    pub open spec fn collected(self, scope_id: ScopeId) -> TableModel {
        TableModel {
            entries: Map::new(
                |k: KeyModel|
                    self.entries.contains_key(k) && self.entries[k].entry.introduced_at_scope
                        < scope_id,
                |k: KeyModel| self.entries[k],
            ),
            ..self
        }
    }

    /// The symbol that a lookup of `key` gives.
    pub open spec fn entry_for(self, key: KeyModel) -> EntryModel {
        if self.entries.contains_key(key) {
            self.entries[key].entry
        } else {
            EntryModel {
                symbol: symbol(self.prefix, self.minted + 1),
                deps: key.deps,
                introduced_at_scope: self.scope,
            }
        }
    }

    /// The table that a symbol is minted into: a full table first drops its cold entries.
    pub open spec fn with_room(self) -> TableModel {
        if self.entries.dom().len() >= self.soft_capacity {
            self.evicted()
        } else {
            self
        }
    }

    /// After a lookup of `key`. A symbol that is found counts as used now; one that is not found
    /// is minted and takes a free slot, or a new one if no slot is free.
    pub open spec fn looked_up(self, key: KeyModel) -> TableModel {
        if self.entries.contains_key(key) {
            TableModel {
                entries: self.entries.insert(
                    key,
                    CachedModel { entry: self.entries[key].entry, last_used: self.epoch },
                ),
                reuse_hits: bumped(self.reuse_hits),
                ..self
            }
        } else {
            let room = self.with_room();
            TableModel {
                entries: room.entries.insert(
                    key,
                    CachedModel { entry: self.entry_for(key), last_used: self.epoch },
                ),
                slot_count: if room.entries.dom().len() < self.slot_count {
                    self.slot_count
                } else {
                    self.slot_count + 1
                },
                minted: self.minted + 1,
                fresh_generations: bumped(self.fresh_generations),
                ..self
            }
        }
    }
}

/// The key of a Skolem symbol: the existential's body, and the universal variables that its
/// witness may depend on in the order in which they were introduced. The order fixes that of the
/// arguments of the Skolem function.
#[derive(Debug, Eq, Hash)]
pub struct SkolemKey {
    body: Rc<Formula>,
    deps: Vec<VarId>,
}

impl View for SkolemKey {
    type V = KeyModel;

    closed spec fn view(&self) -> KeyModel {
        KeyModel { body: self.body@, deps: self.deps@ }
    }
}

impl SkolemKey {
    /// The key for a body under the given variables.
    pub fn new(body: &Rc<Formula>, deps: &[VarId]) -> (r: SkolemKey)
        ensures
            r@ == (KeyModel { body: body@, deps: deps@ }),
    {
        SkolemKey { body: body.clone(), deps: slice_to_vec(deps) }
    }

    fn same(&self, other: &SkolemKey) -> (r: bool)
        ensures
            r == (self@ == other@),
    {
        if self.deps == other.deps && *self.body == *other.body {
            assert(self.deps@ =~= other.deps@);
            true
        } else {
            false
        }
    }

    /// A fingerprint of the key, which narrows the search for it.
    fn print(&self) -> (r: u64)
        ensures
            r == key_print(self@),
    {
        let seed: u64 = add_formula(0xcbf29ce484222325, &self.body);
        let mut acc: u64 = seed;
        let mut i: usize = 0;
        while i < self.deps.len()
            invariant
                i <= self.deps@.len(),
                acc == deps_print(seed, self.deps@, i as nat),
            decreases self.deps@.len() - i,
        {
            acc = (acc ^ (self.deps[i] as u64)).wrapping_mul(0x100000001b3);
            i += 1;
        }
        acc
    }
}

spec fn deps_print(h: u64, deps: Seq<VarId>, n: nat) -> u64
    decreases n,
{
    if n == 0 {
        h
    } else {
        fold(deps_print(h, deps, (n - 1) as nat), deps[n - 1] as u64)
    }
}

spec fn key_print(k: KeyModel) -> u64 {
    deps_print(fold_formula(0xcbf29ce484222325, k.body), k.deps, k.deps.len())
}

impl Clone for SkolemKey {
    fn clone(&self) -> (r: Self)
        ensures
            r@ == self@,
    {
        SkolemKey { body: self.body.clone(), deps: slice_to_vec(self.deps.as_slice()) }
    }
}

impl PartialEq for SkolemKey {
    fn eq(&self, other: &Self) -> (r: bool) {
        self.same(other)
    }
}

impl vstd::std_specs::cmp::PartialEqSpecImpl for SkolemKey {
    open spec fn obeys_eq_spec() -> bool {
        true
    }

    open spec fn eq_spec(&self, other: &Self) -> bool {
        self@ == other@
    }
}

/// A Skolem symbol: its name, the variables it is applied to, and where it was introduced.
#[derive(Debug)]
pub struct SkolemEntry {
    pub symbol: String,
    pub deps: Vec<VarId>,
    pub introduced_at_scope: ScopeId,
}

impl View for SkolemEntry {
    type V = EntryModel;

    open spec fn view(&self) -> EntryModel {
        EntryModel {
            symbol: self.symbol@,
            deps: self.deps@,
            introduced_at_scope: self.introduced_at_scope,
        }
    }
}

impl Clone for SkolemEntry {
    fn clone(&self) -> (r: Self)
        ensures
            r@ == self@,
    {
        SkolemEntry {
            symbol: self.symbol.clone(),
            deps: slice_to_vec(self.deps.as_slice()),
            introduced_at_scope: self.introduced_at_scope,
        }
    }
}

/// A live slot.
struct Slot {
    key: SkolemKey,
    print: u64,
    entry: SkolemEntry,
    last_used: u64,
}

impl Slot {
    spec fn cached(self) -> CachedModel {
        CachedModel { entry: self.entry@, last_used: self.last_used }
    }
}

/// The entries that the slots hold.
spec fn slot_entries(slots: Seq<Option<Slot>>) -> Map<KeyModel, CachedModel>
    decreases slots.len(),
{
    if slots.len() == 0 {
        Map::empty()
    } else {
        match slots.last() {
            Some(s) => slot_entries(slots.drop_last()).insert(s.key@, s.cached()),
            None => slot_entries(slots.drop_last()),
        }
    }
}

/// How many slots are live.
spec fn live(slots: Seq<Option<Slot>>) -> nat
    decreases slots.len(),
{
    if slots.len() == 0 {
        0
    } else {
        live(slots.drop_last()) + if slots.last() is Some {
            1nat
        } else {
            0
        }
    }
}

/// No two live slots have the same key.
spec fn distinct_keys(slots: Seq<Option<Slot>>) -> bool {
    forall|i: int, j: int|
        #![trigger slots[i], slots[j]]
        0 <= i < j < slots.len() && slots[i] is Some && slots[j] is Some ==> slots[i]->0.key@
            != slots[j]->0.key@
}

proof fn slot_entries_at(slots: Seq<Option<Slot>>, i: int)
    requires
        distinct_keys(slots),
        0 <= i < slots.len(),
        slots[i] is Some,
    ensures
        slot_entries(slots).contains_key(slots[i]->0.key@),
        slot_entries(slots)[slots[i]->0.key@] == slots[i]->0.cached(),
    decreases slots.len(),
{
    if i < slots.len() - 1 {
        let init = slots.drop_last();
        assert(distinct_keys(init)) by {
            assert forall|a: int, b: int|
                #![trigger init[a], init[b]]
                0 <= a < b < init.len() && init[a] is Some && init[b] is Some implies init[a]->0.key@
                != init[b]->0.key@ by {
                assert(init[a] == slots[a] && init[b] == slots[b]);
            }
        }
        slot_entries_at(init, i);
        assert(init[i] == slots[i]);
        assert(slots.last() == slots[slots.len() - 1]);
    }
}

proof fn slot_entries_from(slots: Seq<Option<Slot>>, k: KeyModel) -> (i: int)
    requires
        slot_entries(slots).contains_key(k),
    ensures
        0 <= i < slots.len(),
        slots[i] is Some,
        slots[i]->0.key@ == k,
    decreases slots.len(),
{
    if slots.last() is Some && slots.last()->0.key@ == k {
        slots.len() - 1
    } else {
        slot_entries_from(slots.drop_last(), k)
    }
}

proof fn slot_entries_len(slots: Seq<Option<Slot>>)
    requires
        distinct_keys(slots),
    ensures
        slot_entries(slots).dom().finite(),
        slot_entries(slots).dom().len() == live(slots),
        live(slots) <= slots.len(),
    decreases slots.len(),
{
    if slots.len() > 0 {
        let init = slots.drop_last();
        assert(distinct_keys(init)) by {
            assert forall|a: int, b: int|
                #![trigger init[a], init[b]]
                0 <= a < b < init.len() && init[a] is Some && init[b] is Some implies init[a]->0.key@
                != init[b]->0.key@ by {
                assert(init[a] == slots[a] && init[b] == slots[b]);
            }
        }
        slot_entries_len(init);
        if let Some(s) = slots.last() {
            if slot_entries(init).contains_key(s.key@) {
                let i = slot_entries_from(init, s.key@);
                assert(init[i] == slots[i]);
                assert(slots[slots.len() - 1] == Some(s));
            }
            assert(slot_entries(slots).dom() =~= slot_entries(init).dom().insert(s.key@));
        } else {
            assert(slot_entries(slots).dom() =~= slot_entries(init).dom());
        }
    }
}

proof fn live_update(slots: Seq<Option<Slot>>, i: int, s: Option<Slot>)
    requires
        0 <= i < slots.len(),
    ensures
        live(slots.update(i, s)) + (if slots[i] is Some {
            1nat
        } else {
            0
        }) == live(slots) + (if s is Some {
            1nat
        } else {
            0
        }),
    decreases slots.len(),
{
    let new = slots.update(i, s);
    if i == slots.len() - 1 {
        assert(new.drop_last() =~= slots.drop_last());
    } else {
        assert(new.drop_last() =~= slots.drop_last().update(i, s));
        live_update(slots.drop_last(), i, s);
    }
}

/// What a sweep drops.
enum Sweep {
    /// The entries that have been idle for longer than the window.
    Cold,
    /// The entries that were introduced at this depth or deeper.
    Scope(ScopeId),
}

/// The entries of a table, with its scope, its clock and the numbers of its symbols.
pub struct Slots {
    slots: Vec<Option<Slot>>,
    /// For each fingerprint, the places of the live slots whose keys have it.
    index: HashMap<u64, Vec<usize>>,
    /// The places of the free slots.
    free: Vec<usize>,
    scope_stack_depth: ScopeId,
    epoch: u64,
    next_id: Counter,
    prefix: String,
    soft_capacity: usize,
    idle_window: u64,
}

impl View for Slots {
    type V = TableModel;

    /// The table with no lookups counted.
    closed spec fn view(&self) -> TableModel {
        TableModel {
            entries: slot_entries(self.slots@),
            slot_count: self.slots@.len(),
            scope: self.scope_stack_depth,
            epoch: self.epoch,
            minted: self.next_id@,
            prefix: self.prefix@,
            soft_capacity: self.soft_capacity,
            idle_window: self.idle_window,
            reuse_hits: 0,
            fresh_generations: 0,
        }
    }
}

/// The table of Skolem symbols.
pub struct SkolemTable {
    /// Everything but the counts of lookups.
    pub state: Slots,
    /// How many lookups found their symbol.
    pub reuse_hits: usize,
    /// How many lookups minted a symbol.
    pub fresh_generations: usize,
}

impl View for SkolemTable {
    type V = TableModel;

    open spec fn view(&self) -> TableModel {
        TableModel {
            reuse_hits: self.reuse_hits,
            fresh_generations: self.fresh_generations,
            ..self.state@
        }
    }
}

/// The slots and the list of the free ones fit together.
spec fn slots_wf(slots: Seq<Option<Slot>>, free: Seq<usize>) -> bool {
    &&& distinct_keys(slots)
    &&& forall|i: int|
        0 <= i < slots.len() && (#[trigger] slots[i]) is Some ==> slots[i]->0.print == key_print(
            slots[i]->0.key@,
        )
    &&& live(slots) + free.len() == slots.len()
    &&& forall|j: int|
        0 <= j < free.len() ==> (#[trigger] free[j]) < slots.len() && slots[free[j] as int] is None
    &&& free.no_duplicates()
}

/// The places that are listed for a fingerprint.
spec fn places(index: Map<u64, Vec<usize>>, print: u64) -> Seq<usize> {
    if index.contains_key(print) {
        index[print]@
    } else {
        Seq::empty()
    }
}

/// Whether the place `i` is listed for a fingerprint.
spec fn listed(index: Map<u64, Vec<usize>>, print: u64, i: int) -> bool {
    exists|j: int| 0 <= j < places(index, print).len() && #[trigger] places(index, print)[j] == i
}

/// The live slots among the first `n` are listed under their fingerprints, and nothing else is.
spec fn indexed(slots: Seq<Option<Slot>>, n: int, index: Map<u64, Vec<usize>>) -> bool {
    &&& forall|i: int|
        0 <= i < n && (#[trigger] slots[i]) is Some ==> listed(index, slots[i]->0.print, i)
    &&& forall|print: u64, j: int|
        0 <= j < places(index, print).len() ==> {
            let i = #[trigger] places(index, print)[j] as int;
            &&& i < n
            &&& slots[i] is Some
            &&& slots[i]->0.print == print
        }
}

/// Lists one more place for a fingerprint.
fn add_place(index: &mut HashMap<u64, Vec<usize>>, print: u64, place: usize)
    ensures
        forall|h: u64| #[trigger]
            places(final(index)@, h) == (if h == print {
                places(old(index)@, h).push(place)
            } else {
                places(old(index)@, h)
            }),
{
    broadcast use vstd::std_specs::hash::group_hash_axioms;

    let mut list: Vec<usize> = match index.remove(&print) {
        Some(list) => list,
        None => Vec::new(),
    };
    assert(list@ =~= places(old(index)@, print));
    list.push(place);
    index.insert(print, list);
}

/// Listing the place of a new entry keeps the index right.
proof fn indexed_one_more(
    slots: Seq<Option<Slot>>,
    n: int,
    index: Map<u64, Vec<usize>>,
    slots2: Seq<Option<Slot>>,
    n2: int,
    index2: Map<u64, Vec<usize>>,
    i: int,
    print: u64,
)
    requires
        indexed(slots, n, index),
        0 <= i < n2,
        n <= n2,
        i < n ==> slots[i] is None,
        forall|k: int| 0 <= k < n2 && k != i && k < n ==> #[trigger] slots2[k] == slots[k],
        forall|k: int| n <= k < n2 && k != i ==> (#[trigger] slots2[k]) is None,
        slots2[i] is Some,
        slots2[i]->0.print == print,
        i <= usize::MAX,
        forall|h: u64| #[trigger]
            places(index2, h) == (if h == print {
                places(index, h).push(i as usize)
            } else {
                places(index, h)
            }),
    ensures
        indexed(slots2, n2, index2),
{
    assert forall|k: int| 0 <= k < n2 && (#[trigger] slots2[k]) is Some implies listed(
        index2,
        slots2[k]->0.print,
        k,
    ) by {
        let h = slots2[k]->0.print;
        if k == i {
            assert(places(index2, h)[places(index, h).len() as int] == i);
        } else {
            assert(slots2[k] == slots[k]);
            let j = choose|j: int|
                0 <= j < places(index, h).len() && #[trigger] places(index, h)[j] == k;
            assert(places(index2, h)[j] == k);
        }
    }
    assert forall|h: u64, j: int| 0 <= j < places(index2, h).len() implies {
        let k = #[trigger] places(index2, h)[j] as int;
        &&& k < n2
        &&& slots2[k] is Some
        &&& slots2[k]->0.print == h
    } by {
        if j < places(index, h).len() {
            assert(places(index2, h)[j] == places(index, h)[j]);
        }
    }
}

/// The index of the live slots.
fn index_of(slots: &Vec<Option<Slot>>) -> (r: HashMap<u64, Vec<usize>>)
    ensures
        indexed(slots@, slots@.len() as int, r@),
{
    broadcast use vstd::std_specs::hash::group_hash_axioms;

    let mut index: HashMap<u64, Vec<usize>> = HashMap::new();
    let mut i: usize = 0;
    while i < slots.len()
        invariant
            i <= slots@.len(),
            indexed(slots@, i as int, index@),
        decreases slots@.len() - i,
    {
        let ghost before = index@;
        if let Some(slot) = &slots[i] {
            add_place(&mut index, slot.print, i);
            proof {
                indexed_one_more(
                    slots@,
                    i as int,
                    before,
                    slots@,
                    i + 1,
                    index@,
                    i as int,
                    slot.print,
                );
            }
        }
        i += 1;
    }
    index
}

impl SkolemTable {
    /// The slots fit the list of free slots and the index.
    pub closed spec fn in_order(&self) -> bool {
        &&& slots_wf(self.state.slots@, self.state.free@)
        &&& indexed(self.state.slots@, self.state.slots@.len() as int, self.state.index@)
        &&& self.state.next_id.wf()
    }

    /// The slots are in order, and the symbols are as [`TableModel::wf`] says.
    pub open spec fn wf(&self) -> bool {
        &&& self.in_order()
        &&& self@.wf()
    }

    /// A table with the default capacity and idle window.
    pub fn new(prefix: &str) -> (r: SkolemTable)
        ensures
            r.wf(),
            r@ == TableModel::empty(prefix@, DEFAULT_SOFT_CAPACITY, DEFAULT_IDLE_WINDOW),
    {
        SkolemTable::with_capacity(prefix, DEFAULT_SOFT_CAPACITY, DEFAULT_IDLE_WINDOW)
    }

    /// A table that starts to drop cold entries at `soft_capacity` live ones. An entry is cold
    /// when it has been idle for more than `idle_window` scope changes.
    pub fn with_capacity(prefix: &str, soft_capacity: usize, idle_window: u64) -> (r: SkolemTable)
        ensures
            r.wf(),
            r@ == TableModel::empty(prefix@, soft_capacity, idle_window),
    {
        broadcast use vstd::std_specs::hash::group_hash_axioms;

        SkolemTable {
            state: Slots {
                slots: Vec::new(),
                index: HashMap::new(),
                free: Vec::new(),
                scope_stack_depth: 0,
                epoch: 0,
                next_id: Counter::new(),
                prefix: prefix.to_owned(),
                soft_capacity,
                idle_window,
            },
            reuse_hits: 0,
            fresh_generations: 0,
        }
    }

    /// The depth of the current scope.
    pub fn current_scope(&self) -> (r: ScopeId)
        ensures
            r == self@.scope,
    {
        self.state.scope_stack_depth
    }

    /// Enters a scope.
    pub fn push(&mut self)
        requires
            old(self).wf(),
        ensures
            final(self).wf(),
            final(self)@ == old(self)@.pushed(),
    {
        self.state.scope_stack_depth = self.state.scope_stack_depth.saturating_add(1);
        self.state.epoch = self.state.epoch.saturating_add(1);
    }

    /// Leaves `n` scopes, and no more than there are. The entries stay.
    pub fn pop(&mut self, n: usize)
        requires
            old(self).wf(),
        ensures
            final(self).wf(),
            final(self)@ == old(self)@.popped(n),
    {
        self.state.scope_stack_depth = self.state.scope_stack_depth.saturating_sub(n);
        self.state.epoch = self.state.epoch.saturating_add(1);
    }

    /// How many entries are live.
    pub fn len(&self) -> (r: usize)
        requires
            self.wf(),
        ensures
            r == self@.entries.dom().len(),
    {
        proof {
            slot_entries_len(self.state.slots@);
        }
        self.state.slots.len() - self.state.free.len()
    }

    /// How many slots there are, live or free.
    pub fn slot_count(&self) -> (r: usize)
        ensures
            r == self@.slot_count,
    {
        self.state.slots.len()
    }

    /// Drops the entries that `what` names, and says how many there were.
    fn sweep(&mut self, what: Sweep) -> (freed: usize)
        requires
            old(self).wf(),
        ensures
            final(self).wf(),
            final(self)@ == (TableModel {
                entries: Map::new(
                    |k: KeyModel|
                        old(self)@.entries.contains_key(k) && !doomed(
                            old(self)@,
                            what,
                            old(self)@.entries[k],
                        ),
                    |k: KeyModel| old(self)@.entries[k],
                ),
                ..old(self)@
            }),
            freed + final(self)@.entries.dom().len() == old(self)@.entries.dom().len(),
    {
        let ghost before = *self;
        let ghost slots0 = self.state.slots@;
        let free_before: usize = self.state.free.len();
        let mut i: usize = 0;
        while i < self.state.slots.len()
            invariant
                i <= self.state.slots@.len(),
                self.state.slots@.len() == slots0.len(),
                slots0 == before.state.slots@,
                before.wf(),
                slots_wf(self.state.slots@, self.state.free@),
                self.state.free@.len() >= before.state.free@.len(),
                *self == (SkolemTable {
                    state: Slots {
                        slots: self.state.slots,
                        free: self.state.free,
                        ..before.state
                    },
                    ..before
                }),
                forall|j: int|
                    0 <= j < i ==> #[trigger] self.state.slots@[j] == (if slots0[j] is Some && doomed(
                        before@,
                        what,
                        slots0[j]->0.cached(),
                    ) {
                        None
                    } else {
                        slots0[j]
                    }),
                forall|j: int| i <= j < slots0.len() ==> #[trigger] self.state.slots@[j] == slots0[j],
            decreases self.state.slots@.len() - i,
        {
            let ghost slots1 = self.state.slots@;
            let ghost free1 = self.state.free@;
            let drop = match &self.state.slots[i] {
                Some(slot) => match what {
                    Sweep::Cold => {
                        assert(slot_entries(slots0).contains_key(slot.key@)) by {
                            assert(slots0[i as int] == Some(*slot));
                            slot_entries_at(slots0, i as int);
                        }
                        assert(before@.entries.contains_key(slot.key@));
                        proof {
                            slot_entries_at(slots0, i as int);
                        }
                        self.state.epoch - slot.last_used > self.state.idle_window
                    },
                    Sweep::Scope(scope_id) => slot.entry.introduced_at_scope >= scope_id,
                },
                None => false,
            };
            if drop {
                self.state.slots.set(i, None);
                self.state.free.push(i);
                proof {
                    slots_wf_clear(slots1, free1, i);
                }
            }
            i += 1;
        }
        self.state.index = index_of(&self.state.slots);
        proof {
            slot_entries_len(slots0);
            slot_entries_len(self.state.slots@);
            let want = Map::new(
                |k: KeyModel|
                    before@.entries.contains_key(k) && !doomed(before@, what, before@.entries[k]),
                |k: KeyModel| before@.entries[k],
            );
            assert forall|k: KeyModel| #[trigger] slot_entries(self.state.slots@).contains_key(k) implies {
                &&& want.contains_key(k)
                &&& slot_entries(self.state.slots@)[k] == want[k]
            } by {
                let j = slot_entries_from(self.state.slots@, k);
                assert(self.state.slots@[j] == slots0[j]);
                slot_entries_at(self.state.slots@, j);
                slot_entries_at(slots0, j);
            }
            assert forall|k: KeyModel| #[trigger] want.contains_key(k) implies slot_entries(
                self.state.slots@,
            ).contains_key(k) by {
                let j = slot_entries_from(slots0, k);
                slot_entries_at(slots0, j);
                assert(self.state.slots@[j] == slots0[j]);
                slot_entries_at(self.state.slots@, j);
            }
            assert(self@.entries.dom() =~= want.dom());
            assert(self@.entries =~= want);
            assert(forall|k: KeyModel|
                self@.entries.contains_key(k) ==> before@.entries.contains_key(k)
                    && self@.entries[k] == before@.entries[k]);
            assert(self@.wf());
        }
        self.state.free.len() - free_before
    }

    /// Drops every cold entry and says how many there were. Their slots stay and are used again.
    pub fn evict_cold(&mut self) -> (freed: usize)
        requires
            old(self).wf(),
        ensures
            final(self).wf(),
            final(self)@ == old(self)@.evicted(),
            forall|k: KeyModel| #[trigger]
                final(self)@.entries.contains_key(k) <==> old(self)@.entries.contains_key(k)
                    && old(self)@.epoch - old(self)@.entries[k].last_used <= old(
                    self,
                )@.idle_window,
            freed + final(self)@.entries.dom().len() == old(self)@.entries.dom().len(),
    {
        let freed: usize = self.sweep(Sweep::Cold);
        assert(self@.entries =~= old(self)@.evicted().entries);
        freed
    }

    /// Drops every entry that was introduced at depth `scope_id` or deeper. This never breaks
    /// anything: at worst a symbol is minted again under a new name.
    pub fn gc_scope(&mut self, scope_id: ScopeId)
        requires
            old(self).wf(),
        ensures
            final(self).wf(),
            final(self)@ == old(self)@.collected(scope_id),
            forall|k: KeyModel| #[trigger]
                final(self)@.entries.contains_key(k) <==> old(self)@.entries.contains_key(k)
                    && old(self)@.entries[k].entry.introduced_at_scope < scope_id,
    {
        self.sweep(Sweep::Scope(scope_id));
        assert(self@.entries =~= old(self)@.collected(scope_id).entries);
    }

    /// The slot that holds `key`, if there is one.
    fn find(&self, key: &SkolemKey, print: u64) -> (r: Option<usize>)
        requires
            self.wf(),
            print == key_print(key@),
        ensures
            match r {
                Some(i) => i < self.state.slots@.len() && self.state.slots@[i as int] is Some
                    && self.state.slots@[i as int]->0.key@ == key@,
                None => !self@.entries.contains_key(key@),
            },
    {
        broadcast use vstd::std_specs::hash::group_hash_axioms;

        let ghost all = places(self.state.index@, print);
        if let Some(list) = self.state.index.get(&print) {
            let mut j: usize = 0;
            while j < list.len()
                invariant
                    self.wf(),
                    print == key_print(key@),
                    all == places(self.state.index@, print),
                    all == list@,
                    j <= list@.len(),
                    forall|k: int|
                        0 <= k < j ==> self.state.slots@[(#[trigger] all[k]) as int]->0.key@ != key@,
                decreases list@.len() - j,
            {
                assert(all[j as int] == list@[j as int]);
                let i: usize = list[j];
                match &self.state.slots[i] {
                    Some(slot) => {
                        if slot.key.same(key) {
                            return Some(i);
                        }
                    },
                    None => {},
                }
                j += 1;
            }
        }
        proof {
            if slot_entries(self.state.slots@).contains_key(key@) {
                let i = slot_entries_from(self.state.slots@, key@);
                assert(listed(self.state.index@, print, i));
                let j = choose|j: int| 0 <= j < all.len() && #[trigger] all[j] == i;
            }
        }
        None
    }

    /// Looks up the Skolem symbol for an existential with this body under these variables, and
    /// mints one if there is none.
    pub fn get_or_create(&mut self, body: &Rc<Formula>, deps: &[VarId]) -> (r: SkolemEntry)
        requires
            old(self).wf(),
        ensures
            final(self).wf(),
            r@ == old(self)@.entry_for(KeyModel { body: body@, deps: deps@ }),
            final(self)@ == old(self)@.looked_up(KeyModel { body: body@, deps: deps@ }),
    {
        let key = SkolemKey::new(body, deps);
        let ghost k = key@;
        let ghost before = *self;
        let print: u64 = key.print();
        if let Some(i) = self.find(&key, print) {
            self.reuse_hits = bump_count(self.reuse_hits);
            let ghost slots0 = self.state.slots@;
            let epoch: u64 = self.state.epoch;
            let entry = match &self.state.slots[i] {
                Some(slot) => slot.entry.clone(),
                None => SkolemEntry {
                    symbol: String::new(),
                    deps: Vec::new(),
                    introduced_at_scope: 0,
                },
            };
            let again = entry.clone();
            self.state.slots.set(i, Some(Slot { key, print, entry: again, last_used: epoch }));
            proof {
                slot_entries_at(slots0, i as int);
                let s = self.state.slots@[i as int]->0;
                slot_entries_set(slots0, i as int, s);
                slots_wf_set(slots0, self.state.free@, i as int, s);
                assert(indexed(self.state.slots@, self.state.slots@.len() as int, self.state.index@)) by {
                    assert forall|k: int|
                        0 <= k < self.state.slots@.len() && (#[trigger] self.state.slots@[k]) is Some implies listed(
                        self.state.index@,
                        self.state.slots@[k]->0.print,
                        k,
                    ) by {
                        assert(slots0[k] is Some);
                    }
                }
                assert(self@.entries =~= before@.looked_up(k).entries);
                looked_up_wf(before@, k);
            }
            return entry;
        }
        if self.len() >= self.state.soft_capacity {
            self.evict_cold();
        }
        assert(self@ == before@.with_room());
        assert(!self@.entries.contains_key(k));
        let ghost room = *self;
        let ghost slots0 = self.state.slots@;
        self.fresh_generations = bump_count(self.fresh_generations);
        self.state.next_id.next();
        let numeral = self.state.next_id.numeral();
        let entry = SkolemEntry {
            symbol: concat(self.state.prefix.as_str(), numeral.as_str()),
            deps: slice_to_vec(deps),
            introduced_at_scope: self.state.scope_stack_depth,
        };
        let slot = Slot { key, print, entry: entry.clone(), last_used: self.state.epoch };
        proof {
            slot_entries_len(slots0);
        }
        let ghost free0 = self.state.free@;
        let ghost index0 = self.state.index@;
        match self.state.free.pop() {
            Some(i) => {
                assert(i == free0.last() && slots0[free0.last() as int] is None);
                self.state.slots.set(i, Some(slot));
                add_place(&mut self.state.index, print, i);
                proof {
                    slot_entries_set(slots0, i as int, slot);
                    slots_wf_fill(slots0, free0, slot);
                    let n = slots0.len() as int;
                    indexed_one_more(
                        slots0,
                        n,
                        index0,
                        self.state.slots@,
                        n,
                        self.state.index@,
                        i as int,
                        print,
                    );
                }
            },
            None => {
                let place: usize = self.state.slots.len();
                self.state.slots.push(Some(slot));
                add_place(&mut self.state.index, print, place);
                proof {
                    assert(self.state.slots@.drop_last() =~= slots0);
                    slots_wf_push(slots0, free0, slot);
                    let n = slots0.len() as int;
                    indexed_one_more(
                        slots0,
                        n,
                        index0,
                        self.state.slots@,
                        n + 1,
                        self.state.index@,
                        n,
                        print,
                    );
                }
            },
        }
        proof {
            assert(self@.entries =~= before@.looked_up(k).entries);
            looked_up_wf(before@, k);
        }
        entry
    }
}

/// Whether a sweep drops an entry.
spec fn doomed(t: TableModel, what: Sweep, c: CachedModel) -> bool {
    match what {
        Sweep::Cold => t.is_cold(c),
        Sweep::Scope(scope_id) => c.entry.introduced_at_scope >= scope_id,
    }
}

proof fn slots_wf_clear(slots: Seq<Option<Slot>>, free: Seq<usize>, i: usize)
    requires
        slots_wf(slots, free),
        i < slots.len(),
        slots[i as int] is Some,
    ensures
        slots_wf(slots.update(i as int, None), free.push(i)),
{
    let slots2 = slots.update(i as int, None);
    let free2 = free.push(i);
    live_update(slots, i as int, None);
    assert forall|j: int| 0 <= j < free2.len() implies (#[trigger] free2[j]) < slots2.len()
        && slots2[free2[j] as int] is None by {
        if j < free.len() {
            assert(free2[j] == free[j]);
        }
    }
    assert(free2.no_duplicates()) by {
        assert forall|a: int, b: int| 0 <= a < free2.len() && 0 <= b < free2.len() && a
            != b implies free2[a] != free2[b] by {
            if a < free.len() {
                assert(free2[a] == free[a] && slots[free[a] as int] is None);
            }
            if b < free.len() {
                assert(free2[b] == free[b] && slots[free[b] as int] is None);
            }
        }
    }
    assert forall|a: int, b: int|
        #![trigger slots2[a], slots2[b]]
        0 <= a < b < slots2.len() && slots2[a] is Some && slots2[b] is Some implies slots2[a]->0.key@
        != slots2[b]->0.key@ by {
        assert(slots2[a] == slots[a] && slots2[b] == slots[b]);
    }
    assert forall|a: int| 0 <= a < slots2.len() && (#[trigger] slots2[a]) is Some implies slots2[a]->0.print
        == key_print(slots2[a]->0.key@) by {
        assert(slots2[a] == slots[a]);
    }
}

proof fn slot_entries_set(slots: Seq<Option<Slot>>, i: int, s: Slot)
    requires
        distinct_keys(slots),
        0 <= i < slots.len(),
        match slots[i] {
            Some(there) => there.key@ == s.key@,
            None => !slot_entries(slots).contains_key(s.key@),
        },
    ensures
        slot_entries(slots.update(i, Some(s))) == slot_entries(slots).insert(s.key@, s.cached()),
    decreases slots.len(),
{
    let new = slots.update(i, Some(s));
    let init = slots.drop_last();
    if i == slots.len() - 1 {
        assert(new.drop_last() =~= init);
        assert(slot_entries(new) =~= slot_entries(slots).insert(s.key@, s.cached()));
    } else {
        assert(new.drop_last() =~= init.update(i, Some(s)));
        assert(init[i] == slots[i]);
        assert forall|a: int, b: int|
            #![trigger init[a], init[b]]
            0 <= a < b < init.len() && init[a] is Some && init[b] is Some implies init[a]->0.key@
            != init[b]->0.key@ by {
            assert(init[a] == slots[a] && init[b] == slots[b]);
        }
        slot_entries_set(init, i, s);
        assert(slots.last() == slots[slots.len() - 1]);
        if let Some(tail) = slots.last() {
            assert(tail.key@ != s.key@) by {
                slot_entries_at(slots, slots.len() - 1);
                if slots[i] is Some {
                    assert(slots[i]->0.key@ != slots[slots.len() - 1]->0.key@);
                }
            }
        }
        assert(slot_entries(new) =~= slot_entries(slots).insert(s.key@, s.cached()));
    }
}

proof fn slots_wf_set(slots: Seq<Option<Slot>>, free: Seq<usize>, i: int, s: Slot)
    requires
        slots_wf(slots, free),
        0 <= i < slots.len(),
        slots[i] is Some,
        slots[i]->0.key@ == s.key@,
        s.print == key_print(s.key@),
    ensures
        slots_wf(slots.update(i, Some(s)), free),
{
    let new = slots.update(i, Some(s));
    live_update(slots, i, Some(s));
    assert forall|a: int, b: int|
        #![trigger new[a], new[b]]
        0 <= a < b < new.len() && new[a] is Some && new[b] is Some implies new[a]->0.key@
        != new[b]->0.key@ by {
        assert(slots[a]->0.key@ != slots[b]->0.key@);
    }
    assert forall|j: int| 0 <= j < free.len() implies (#[trigger] free[j]) < new.len()
        && new[free[j] as int] is None by {
        assert(slots[free[j] as int] is None);
    }
    assert forall|a: int| 0 <= a < new.len() && (#[trigger] new[a]) is Some implies new[a]->0.print
        == key_print(new[a]->0.key@) by {
        if a != i {
            assert(new[a] == slots[a]);
        }
    }
}

proof fn slots_wf_fill(slots: Seq<Option<Slot>>, free: Seq<usize>, s: Slot)
    requires
        slots_wf(slots, free),
        free.len() > 0,
        !slot_entries(slots).contains_key(s.key@),
        s.print == key_print(s.key@),
    ensures
        slots_wf(slots.update(free.last() as int, Some(s)), free.drop_last()),
{
    let i = free.last() as int;
    assert(free[free.len() - 1] == i);
    let new = slots.update(i, Some(s));
    let free2 = free.drop_last();
    live_update(slots, i, Some(s));
    assert forall|a: int, b: int|
        #![trigger new[a], new[b]]
        0 <= a < b < new.len() && new[a] is Some && new[b] is Some implies new[a]->0.key@
        != new[b]->0.key@ by {
        if a == i {
            assert(new[b] == slots[b]);
            slot_entries_at(slots, b);
        } else if b == i {
            assert(new[a] == slots[a]);
            slot_entries_at(slots, a);
        } else {
            assert(new[a] == slots[a] && new[b] == slots[b]);
        }
    }
    assert forall|j: int| 0 <= j < free2.len() implies (#[trigger] free2[j]) < new.len()
        && new[free2[j] as int] is None by {
        assert(free2[j] == free[j]);
        assert(slots[free[j] as int] is None);
        assert(free[j] != free[free.len() - 1]);
    }
    assert(free2.no_duplicates()) by {
        assert forall|a: int, b: int| 0 <= a < free2.len() && 0 <= b < free2.len() && a
            != b implies free2[a] != free2[b] by {
            assert(free2[a] == free[a] && free2[b] == free[b]);
        }
    }
    assert forall|a: int| 0 <= a < new.len() && (#[trigger] new[a]) is Some implies new[a]->0.print
        == key_print(new[a]->0.key@) by {
        if a != i {
            assert(new[a] == slots[a]);
        }
    }
}

proof fn slots_wf_push(slots: Seq<Option<Slot>>, free: Seq<usize>, s: Slot)
    requires
        slots_wf(slots, free),
        !slot_entries(slots).contains_key(s.key@),
        s.print == key_print(s.key@),
    ensures
        slots_wf(slots.push(Some(s)), free),
{
    let new = slots.push(Some(s));
    assert(new.drop_last() =~= slots);
    assert forall|a: int, b: int|
        #![trigger new[a], new[b]]
        0 <= a < b < new.len() && new[a] is Some && new[b] is Some implies new[a]->0.key@
        != new[b]->0.key@ by {
        assert(new[a] == slots[a]);
        if b < slots.len() {
            assert(new[b] == slots[b]);
        } else {
            slot_entries_at(slots, a);
        }
    }
    assert forall|j: int| 0 <= j < free.len() implies (#[trigger] free[j]) < new.len()
        && new[free[j] as int] is None by {
        assert(slots[free[j] as int] is None);
    }
    assert forall|a: int| 0 <= a < new.len() && (#[trigger] new[a]) is Some implies new[a]->0.print
        == key_print(new[a]->0.key@) by {
        if a < slots.len() {
            assert(new[a] == slots[a]);
        }
    }
}

/// Different numbers give different symbols.
pub proof fn symbol_injective(prefix: Seq<char>, a: nat, b: nat)
    requires
        symbol(prefix, a) == symbol(prefix, b),
    ensures
        a == b,
{
    assert(symbol(prefix, a).skip(prefix.len() as int) =~= decimal(a));
    assert(symbol(prefix, b).skip(prefix.len() as int) =~= decimal(b));
    crate::text::decimal_injective(a, b);
}

/// A name is never used again: the symbol that the next mint gives is none of those minted before,
/// whatever has become of them.
pub proof fn fresh_symbol_is_new(t: TableModel, s: Seq<char>)
    requires
        among_minted(t.prefix, t.minted, s),
    ensures
        s != symbol(t.prefix, t.minted + 1),
{
    let i = choose|i: nat| 1 <= i <= t.minted && s == #[trigger] symbol(t.prefix, i);
    if s == symbol(t.prefix, t.minted + 1) {
        symbol_injective(t.prefix, i, t.minted + 1);
    }
}

/// A lookup keeps the table well formed.
pub proof fn looked_up_wf(t: TableModel, key: KeyModel)
    requires
        t.wf(),
    ensures
        t.looked_up(key).wf(),
{
    let new = t.looked_up(key);
    assert forall|s: Seq<char>| #[trigger] among_minted(t.prefix, t.minted, s) implies among_minted(
        new.prefix,
        new.minted,
        s,
    ) by {
        let i = choose|i: nat| 1 <= i <= t.minted && s == #[trigger] symbol(t.prefix, i);
        assert(s == symbol(new.prefix, i));
    }
    if t.entries.contains_key(key) {
        assert(new.entries.dom() =~= t.entries.dom());
    } else {
        let room = t.with_room();
        assert(room.entries.dom().subset_of(t.entries.dom()));
        vstd::set_lib::lemma_len_subset(room.entries.dom(), t.entries.dom());
        assert(new.entries.dom() =~= room.entries.dom().insert(key));
        let fresh = symbol(t.prefix, t.minted + 1);
        assert(among_minted(new.prefix, new.minted, fresh));
        assert forall|k: KeyModel| #[trigger] t.entries.contains_key(
            k,
        ) implies t.entries[k].entry.symbol != fresh by {
            fresh_symbol_is_new(t, t.entries[k].entry.symbol);
        }
        assert forall|k: KeyModel| #[trigger] new.entries.contains_key(k) implies {
            &&& new.entries[k].entry.deps == k.deps
            &&& new.entries[k].last_used <= new.epoch
            &&& among_minted(new.prefix, new.minted, new.entries[k].entry.symbol)
        } by {
            if k != key {
                assert(t.entries.contains_key(k));
            }
        }
    }
}

} // verus!
