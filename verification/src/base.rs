//! The cache engine: the entry store, the replacement policy and the two
//! event buffers, and the housekeeper that keeps them in step.
//!
//! The operations of this module take the hash of the key and the current
//! time as arguments.  A read looks the entry up, decides from the times
//! stored with it whether it may still be seen, and leaves a note in the
//! read buffer.  A write changes the store at once and leaves a note in
//! the write buffer.  The housekeeper replays the notes on the policy,
//! drops what has expired, and evicts entries until the cache is within
//! its capacity again.

use vstd::prelude::*;
use std::time::Duration;
use crate::buffer::Op;
use crate::buffer::OpBuffer;
use crate::buffer::OpKind;
use crate::clock::lasting;
use crate::clock::span;
use crate::clock::span_of;
use crate::model::CoreView;
use crate::model::EngineView;
use crate::model::Sweep;
use crate::order::lemma_without;
use crate::order::without;
use crate::policy::Policy;
use crate::policy::PolicyView;
use crate::table::keys_compare_by_value;
use crate::table::Entry;
use crate::table::Slot;
use crate::table::Table;

verus! {

/// The number of notes each event buffer can hold.
pub const BUFFER_CAPACITY: usize = 256;

/// The number of waiting notes from which an operation runs the
/// housekeeper before it does its own work.
pub const FLUSH_POINT: usize = 128;

/// How often `sync` runs the housekeeper at most.
pub const MAX_SYNC_REPEATS: usize = 4;

/// The number of entries one housekeeping pass drops from one queue for
/// having expired.
pub const EVICTION_BATCH: usize = 512;

/// The number of slots one housekeeping pass visits for one invalidation
/// predicate.
pub const INVALIDATION_BATCH: usize = 512;

/// What the cache stores for a key: the value, when it was written and
/// last accessed, and whether an invalidation predicate has matched it.
pub struct Record<V> {
    pub value: V,
    pub modified: u64,
    pub accessed: u64,
    pub invalidated: bool,
}

/// The times that decide whether an entry may still be seen.
#[derive(Clone, Copy)]
pub struct Rules {
    /// How long an entry lives after it was written, in nanoseconds.
    pub time_to_live: Option<u64>,
    /// How long an entry lives after it was last accessed, in nanoseconds.
    pub time_to_idle: Option<u64>,
    /// Entries written before this time have been invalidated.
    pub valid_after: Option<u64>,
}

/// Why a predicate could not be registered.
#[derive(Clone, Copy, PartialEq, Eq, Debug)]
pub enum PredicateError {
    /// The cache was built without support for invalidation predicates.
    PredicatesDisabled,
}

/// The number under which an invalidation predicate is registered.
pub type PredicateId = u64;

/// The record of an entry.
pub open spec fn record_of<K, V>(e: Entry<K, V>) -> Record<V> {
    Record {
        value: e.value,
        modified: e.modified,
        accessed: e.accessed,
        invalidated: e.invalidated,
    }
}

/// Whether an entry written at `modified` and last accessed at `accessed`
/// has expired at `now`.
pub open spec fn expired(modified: u64, accessed: u64, rules: Rules, now: u64) -> bool {
    ||| (rules.time_to_live is Some && modified + rules.time_to_live->0 <= now)
    ||| (rules.time_to_idle is Some && accessed + rules.time_to_idle->0 <= now)
    ||| (rules.valid_after is Some && modified < rules.valid_after->0)
}

/// Whether a stored record may be seen at `now`: it has not expired and no
/// predicate has matched it.
pub open spec fn visible<V>(r: Record<V>, rules: Rules, now: u64) -> bool {
    !r.invalidated && !expired(r.modified, r.accessed, rules, now)
}

/// `after` holds only entries of `before`, unchanged.
pub open spec fn shrunk<K, V>(
    before: Map<(K, u64), Record<V>>,
    after: Map<(K, u64), Record<V>>,
) -> bool {
    forall|id: (K, u64)| #[trigger]
        after.contains_key(id) ==> before.contains_key(id) && after[id] == before[id]
}

/// `after` lacks only entries of `before` that could not be seen at `now`,
/// and holds the others unchanged.
pub open spec fn reaped<K, V>(
    before: Map<(K, u64), Record<V>>,
    after: Map<(K, u64), Record<V>>,
    rules: Rules,
    now: u64,
) -> bool {
    &&& shrunk(before, after)
    &&& kept_visible(before, after, rules, now)
}

/// `after` holds every entry of `before` that could be seen at `now`.
pub open spec fn kept_visible<K, V>(
    before: Map<(K, u64), Record<V>>,
    after: Map<(K, u64), Record<V>>,
    rules: Rules,
    now: u64,
) -> bool {
    forall|id: (K, u64)| #[trigger]
        before.contains_key(id) && visible(before[id], rules, now) ==> after.contains_key(id)
}

/// By how many entries a cache of `size` entries exceeds `capacity`.
pub open spec fn excess(size: nat, capacity: nat) -> nat {
    if size > capacity {
        (size - capacity) as nat
    } else {
        0
    }
}

/// `after` lacks, of the entries of `before` that could be seen at `now`,
/// only those in `evicted`, and these are no more than the entries by
/// which the cache has come closer to its capacity.
pub open spec fn thinned_by<K, V>(
    before: Map<(K, u64), Record<V>>,
    after: Map<(K, u64), Record<V>>,
    rules: Rules,
    now: u64,
    capacity: nat,
    evicted: Set<(K, u64)>,
) -> bool {
    &&& evicted.finite()
    &&& evicted.len() + excess(after.dom().len(), capacity) <= excess(
        before.dom().len(),
        capacity,
    )
    &&& forall|id: (K, u64)| #[trigger]
        before.contains_key(id) && visible(before[id], rules, now) && !evicted.contains(id)
            ==> after.contains_key(id)
}

/// What the housekeeper does to the entries at `now`.
///
/// It adds and changes none.  It may remove what cannot be seen at `now`.
/// Of what can be seen, it removes no more than the entries in excess of
/// the capacity: for each one it removes, the cache comes closer to its
/// capacity by one.
pub open spec fn housekept<K, V>(
    before: Map<(K, u64), Record<V>>,
    after: Map<(K, u64), Record<V>>,
    rules: Rules,
    now: u64,
    capacity: nat,
) -> bool {
    &&& shrunk(before, after)
    &&& exists|evicted: Set<(K, u64)>| thinned_by(before, after, rules, now, capacity, evicted)
}

/// Doing nothing is housekeeping.
pub proof fn lemma_housekept_same<K, V>(
    a: Map<(K, u64), Record<V>>,
    rules: Rules,
    now: u64,
    capacity: nat,
)
    ensures
        housekept(a, a, rules, now, capacity),
{
    assert(thinned_by(a, a, rules, now, capacity, Set::<(K, u64)>::empty()));
}

/// Housekeeping after housekeeping is housekeeping.
pub proof fn lemma_housekept_then<K, V>(
    a: Map<(K, u64), Record<V>>,
    b: Map<(K, u64), Record<V>>,
    c: Map<(K, u64), Record<V>>,
    rules: Rules,
    now: u64,
    capacity: nat,
)
    requires
        housekept(a, b, rules, now, capacity),
        housekept(b, c, rules, now, capacity),
    ensures
        housekept(a, c, rules, now, capacity),
{
    let e1 = choose|e: Set<(K, u64)>| thinned_by(a, b, rules, now, capacity, e);
    let e2 = choose|e: Set<(K, u64)>| thinned_by(b, c, rules, now, capacity, e);
    let e = e1.union(e2);
    vstd::set_lib::lemma_set_union_finite_iff(e1, e2);
    vstd::set_lib::lemma_len_union(e1, e2);
    assert forall|id: (K, u64)| #[trigger]
        a.contains_key(id) && visible(a[id], rules, now) && !e.contains(id) implies c.contains_key(
        id,
    ) by {
        assert(!e1.contains(id));
        assert(b.contains_key(id));
        assert(b[id] == a[id]);
        assert(!e2.contains(id));
    }
    assert(thinned_by(a, c, rules, now, capacity, e));
    assert forall|id: (K, u64)| #[trigger] c.contains_key(id) implies a.contains_key(id) && c[id]
        == a[id] by {
        assert(b.contains_key(id));
    }
}

/// Removing an entry from a cache that holds more than its capacity is
/// housekeeping.
pub proof fn lemma_housekept_evicted<K, V>(
    a: Map<(K, u64), Record<V>>,
    id: (K, u64),
    rules: Rules,
    now: u64,
    capacity: nat,
)
    requires
        a.dom().finite(),
        a.contains_key(id),
        a.dom().len() > capacity,
    ensures
        housekept(a, a.remove(id), rules, now, capacity),
{
    let e = Set::<(K, u64)>::empty().insert(id);
    assert(a.remove(id).dom() =~= a.dom().remove(id));
    assert(thinned_by(a, a.remove(id), rules, now, capacity, e));
}

/// Removing what cannot be seen is housekeeping.
pub proof fn lemma_housekept_reaped<K, V>(
    a: Map<(K, u64), Record<V>>,
    b: Map<(K, u64), Record<V>>,
    rules: Rules,
    now: u64,
    capacity: nat,
)
    requires
        a.dom().finite(),
        reaped(a, b, rules, now),
    ensures
        housekept(a, b, rules, now, capacity),
{
    assert(b.dom().subset_of(a.dom())) by {
        assert forall|id: (K, u64)| b.dom().contains(id) implies a.dom().contains(id) by {
            assert(b.contains_key(id));
        }
    }
    vstd::set_lib::lemma_len_subset(b.dom(), a.dom());
    assert(thinned_by(a, b, rules, now, capacity, Set::<(K, u64)>::empty()));
}

/// Housekeeping of a cache within its capacity removes nothing that can
/// be seen.
pub proof fn lemma_housekept_spares<K, V>(
    a: Map<(K, u64), Record<V>>,
    b: Map<(K, u64), Record<V>>,
    rules: Rules,
    now: u64,
    capacity: nat,
)
    requires
        housekept(a, b, rules, now, capacity),
    ensures
        spared(a, b, rules, now, capacity),
{
    let e = choose|e: Set<(K, u64)>| thinned_by(a, b, rules, now, capacity, e);
    if a.dom().len() <= capacity {
        assert(e.len() == 0);
        assert(e =~= Set::<(K, u64)>::empty()) by {
            if exists|x: (K, u64)| e.contains(x) {
                let x = choose|x: (K, u64)| e.contains(x);
                vstd::set_lib::lemma_set_empty_equivalency_len(e);
            }
        }
    }
}

/// While the cache holds no more than `capacity` entries, the housekeeper
/// removes none that can be seen: if `before` is within the capacity,
/// `after` holds every entry of `before` that could be seen at `now`.
pub open spec fn spared<K, V>(
    before: Map<(K, u64), Record<V>>,
    after: Map<(K, u64), Record<V>>,
    rules: Rules,
    now: u64,
    capacity: nat,
) -> bool {
    before.dom().len() <= capacity ==> kept_visible(before, after, rules, now)
}

/// The record `r` after it was read at `now`.
pub open spec fn touched<V>(r: Record<V>, now: u64) -> Record<V> {
    Record { accessed: now, ..r }
}

/// The record of a value written at `now`.
pub open spec fn fresh<V>(value: V, now: u64) -> Record<V> {
    Record { value, modified: now, accessed: now, invalidated: false }
}

/// What a read of `id` at `now` returns and leaves behind.
///
/// The read returns a clone of the stored value exactly when the entry is
/// still in the cache and may be seen at `now`; it then counts as
/// accessed at `now`.  Nothing else changes, except that entries may have
/// left the cache.
pub open spec fn read_outcome<K, V: Clone>(
    before: Map<(K, u64), Record<V>>,
    after: Map<(K, u64), Record<V>>,
    rules: Rules,
    id: (K, u64),
    now: u64,
    r: Option<V>,
) -> bool {
    &&& forall|x: (K, u64)| #[trigger]
        after.contains_key(x) ==> before.contains_key(x) && after[x] == (if x == id && r is Some {
            touched(before[x], now)
        } else {
            before[x]
        })
    &&& r is Some <==> after.contains_key(id) && visible(before[id], rules, now)
    &&& r is Some ==> cloned(before[id].value, r->0)
}

/// What a write of `value` under `id` at `now` leaves behind: the fresh
/// record under `id`, and otherwise only entries that were there before.
pub open spec fn write_outcome<K, V>(
    before: Map<(K, u64), Record<V>>,
    after: Map<(K, u64), Record<V>>,
    id: (K, u64),
    value: V,
    now: u64,
) -> bool {
    &&& after.contains_key(id)
    &&& after[id] == fresh(value, now)
    &&& forall|x: (K, u64)| #[trigger]
        after.contains_key(x) && x != id ==> before.contains_key(x) && after[x] == before[x]
}

/// An entry that has expired stays expired, and an entry that can no
/// longer be seen stays unseen.
pub proof fn lemma_expiry_lasts<V>(r: Record<V>, rules: Rules, earlier: u64, later: u64)
    requires
        earlier <= later,
        !visible(r, rules, earlier),
    ensures
        !visible(r, rules, later),
{
}

/// What the registration of `predicate` at `now` does to the entries.
///
/// No entry comes or goes, and only the marks change.  An entry that was
/// written before `now` and was not marked yet is marked exactly when the
/// predicate holds of its key and value; every other entry keeps its mark.
pub open spec fn marked<K, V, F: Fn(&K, &V) -> bool>(
    before: Map<(K, u64), Record<V>>,
    after: Map<(K, u64), Record<V>>,
    predicate: F,
    now: u64,
) -> bool {
    &&& after.dom() == before.dom()
    &&& forall|id: (K, u64)| #[trigger]
        before.contains_key(id) ==> {
            let a = before[id];
            let b = after[id];
            &&& b == Record { invalidated: b.invalidated, ..a }
            &&& a.invalidated ==> b.invalidated
            &&& a.modified >= now ==> b.invalidated == a.invalidated
            &&& !a.invalidated && a.modified < now ==> call_ensures(
                predicate,
                (&id.0, &a.value),
                b.invalidated,
            )
        }
}

/// Whether an entry written at `modified` and last accessed at `accessed`
/// has expired at `now`.
pub fn has_expired(modified: u64, accessed: u64, rules: &Rules, now: u64) -> (b: bool)
    ensures
        b == expired(modified, accessed, *rules, now),
{
    let outlived: bool = match rules.time_to_live {
        Some(span) => match modified.checked_add(span) {
            Some(end) => end <= now,
            None => false,
        },
        None => false,
    };
    let idled: bool = match rules.time_to_idle {
        Some(span) => match accessed.checked_add(span) {
            Some(end) => end <= now,
            None => false,
        },
        None => false,
    };
    let swept: bool = match rules.valid_after {
        Some(t) => modified < t,
        None => false,
    };
    outlived || idled || swept
}

/// The note that the insertion of the entry `e` into `slot` leaves.
pub open spec fn insert_note<K, V>(slot: usize, e: Entry<K, V>) -> Op {
    Op { kind: OpKind::Insert, hash: e.hash, slot, stamp: e.stamp }
}

/// Every entry that stands in no recency queue has the note of its
/// insertion waiting in `notes`, or in `extra`.
pub open spec fn covered<K, V>(
    slots: Seq<Slot<K, V>>,
    policy: PolicyView,
    notes: Seq<Op>,
    extra: Option<Op>,
) -> bool {
    forall|s: usize|
        s < slots.len() && (#[trigger] slots[s as int]) is Occupied && !policy.linked(s)
            ==> notes.contains(insert_note(s, slots[s as int]->Occupied_0)) || extra == Some(
            insert_note(s, slots[s as int]->Occupied_0),
        )
}

/// Every slot that stands in a recency queue is in use.
pub open spec fn anchored<K, V>(slots: Seq<Slot<K, V>>, policy: PolicyView) -> bool {
    forall|s: usize| #[trigger]
        policy.linked(s) ==> s < slots.len() && !(slots[s as int] is Vacant)
}

/// A cache that is told the hash of each key and the time of each
/// operation.
#[verifier::reject_recursive_types(K)]
pub struct BaseCache<K, V> {
    table: Table<K, V>,
    policy: Policy,
    reads: OpBuffer,
    writes: OpBuffer,
    max_capacity: usize,
    time_to_live: Option<Duration>,
    time_to_idle: Option<Duration>,
    live_span: Option<u64>,
    idle_span: Option<u64>,
    valid_after: Option<u64>,
    invalidator_enabled: bool,
    sweeps: Vec<Sweep>,
    next_predicate_id: u64,
    opportunistic: bool,
}

impl<K: PartialEq, V> View for BaseCache<K, V> {
    type V = Map<(K, u64), Record<V>>;

    closed spec fn view(&self) -> Map<(K, u64), Record<V>> {
        records_view(self.table.records())
    }
}

/// The records of a store's entries.
pub open spec fn records_view<K, V>(records: Map<(K, u64), Entry<K, V>>) -> Map<
    (K, u64),
    Record<V>,
> {
    Map::new(|id: (K, u64)| records.contains_key(id), |id: (K, u64)| record_of(records[id]))
}

proof fn lemma_view_insert<K, V>(records: Map<(K, u64), Entry<K, V>>, id: (K, u64), e: Entry<K, V>)
    ensures
        records_view(records.insert(id, e)) == records_view(records).insert(id, record_of(e)),
{
    assert(records_view(records.insert(id, e)) =~= records_view(records).insert(id, record_of(e)));
}

proof fn lemma_view_remove<K, V>(records: Map<(K, u64), Entry<K, V>>, id: (K, u64))
    ensures
        records_view(records.remove(id)) == records_view(records).remove(id),
        shrunk(records_view(records), records_view(records.remove(id))),
{
    assert(records_view(records.remove(id)) =~= records_view(records).remove(id));
}

impl<K: PartialEq, V> BaseCache<K, V> {
    /// The times that decide whether an entry may still be seen.
    pub closed spec fn rules(&self) -> Rules {
        Rules {
            time_to_live: self.live_span,
            time_to_idle: self.idle_span,
            valid_after: self.valid_after,
        }
    }

    /// The largest number of entries the cache holds at rest.
    pub closed spec fn capacity(&self) -> nat {
        self.max_capacity as nat
    }

    /// The number of notes waiting in the read buffer.
    pub closed spec fn pending_reads(&self) -> nat {
        self.reads@.len()
    }

    /// The number of notes waiting in the write buffer.
    pub closed spec fn pending_writes(&self) -> nat {
        self.writes@.len()
    }

    /// Whether operations run the housekeeper when the buffers fill up.
    pub closed spec fn is_opportunistic(&self) -> bool {
        self.opportunistic
    }

    /// Whether the next operation runs the housekeeper before its own
    /// work.
    pub open spec fn housekeeping_due(&self) -> bool {
        self.is_opportunistic() && (self.pending_reads() >= FLUSH_POINT || self.pending_writes()
            >= FLUSH_POINT)
    }

    /// Whether the next write has to run the housekeeper to make room for
    /// its note.
    pub open spec fn write_pressure(&self) -> bool {
        self.housekeeping_due() || self.pending_writes() >= BUFFER_CAPACITY
    }

    /// Whether invalidation predicates may be registered.
    pub closed spec fn predicates_enabled(&self) -> bool {
        self.invalidator_enabled
    }

    /// The number of predicates whose matches have not all been reaped.
    pub closed spec fn predicate_count(&self) -> nat {
        self.sweeps@.len()
    }

    /// The time to live the cache was built with.
    pub closed spec fn live_duration(&self) -> Option<Duration> {
        self.time_to_live
    }

    /// The time to idle the cache was built with.
    pub closed spec fn idle_duration(&self) -> Option<Duration> {
        self.time_to_idle
    }

    /// The store and the policy, as the functions of `model` see them.
    pub closed spec fn inner(&self) -> CoreView<K, V> {
        CoreView {
            slots: self.table.slots(),
            free: self.table.free(),
            size: self.table.roster().len(),
            next_stamp: self.table.next_stamp(),
            queues: self.policy@,
            sketch: self.policy.sketch(),
            rules: self.rules(),
            capacity: self.max_capacity as nat,
        }
    }

    /// The whole state, as the functions of `model` see it.
    pub closed spec fn model(&self) -> EngineView<K, V> {
        EngineView {
            inner: self.inner(),
            reads: self.reads@,
            writes: self.writes@,
            sweeps: self.sweeps@,
            next_predicate_id: self.next_predicate_id,
            opportunistic: self.opportunistic,
            predicates_enabled: self.invalidator_enabled,
        }
    }

    /// Whether two caches were built alike: the same capacity, the same
    /// times to live and to idle, the same support for predicates, and the
    /// same way of running the housekeeper.
    pub open spec fn same_settings(&self, other: &Self) -> bool {
        &&& self.capacity() == other.capacity()
        &&& self.live_duration() == other.live_duration()
        &&& self.idle_duration() == other.idle_duration()
        &&& self.rules().time_to_live == other.rules().time_to_live
        &&& self.rules().time_to_idle == other.rules().time_to_idle
        &&& self.predicates_enabled() == other.predicates_enabled()
        &&& self.is_opportunistic() == other.is_opportunistic()
    }

    spec fn inv(&self, extra: Option<Op>) -> bool {
        &&& self.table.wf()
        &&& self.policy.wf()
        &&& self.policy.max_capacity() == self.max_capacity
        &&& self.policy.tracks_writes() == (self.live_span is Some)
        &&& self.policy.tracks_idle() == (self.idle_span is Some)
        &&& self.reads.capacity() == BUFFER_CAPACITY
        &&& self.writes.capacity() == BUFFER_CAPACITY
        &&& self.live_span == (match self.time_to_live {
            Some(d) => Some(span_of(d)),
            None => None,
        })
        &&& self.idle_span == (match self.time_to_idle {
            Some(d) => Some(span_of(d)),
            None => None,
        })
        &&& covered(self.table.slots(), self.policy@, self.writes@, extra)
        &&& anchored(self.table.slots(), self.policy@)
        &&& self.sweeps_ok()
    }

    /// The number of entries in the store.
    spec fn live(&self) -> nat {
        self.table.roster().len()
    }

    /// The slot of a key and hash is the slot that the index names.
    proof fn lemma_slot_of(&self, key: K, hash: u64)
        requires
            self.table.wf(),
        ensures
            self.inner().slot_of(key, hash) == (if self.table.index().contains_key((key, hash)) {
                Some(self.table.index()[(key, hash)])
            } else {
                None
            }),
    {
        self.table.lemma_wf();
        let c = self.inner();
        if self.table.index().contains_key((key, hash)) {
            let s = self.table.index()[(key, hash)];
            assert(c.keeps(s, key, hash));
            let t = choose|t: usize| c.keeps(t, key, hash);
            assert(c.keeps(t, key, hash));
            assert(self.table.slots()[t as int] is Occupied);
        } else {
            if exists|t: usize| c.keeps(t, key, hash) {
                let t = choose|t: usize| c.keeps(t, key, hash);
                assert(self.table.slots()[t as int] is Occupied);
            }
        }
    }

    /// What the accessors say of the state, in terms of `model`.
    pub proof fn lemma_model(&self)
        ensures
            self.rules() == self.model().inner.rules,
            self.capacity() == self.model().inner.capacity,
            self.slot_count() == self.model().inner.slots.len(),
            self.pending_reads() == self.model().reads.len(),
            self.pending_writes() == self.model().writes.len(),
            self.predicate_count() == self.model().sweeps.len(),
            self.is_opportunistic() == self.model().opportunistic,
            self.predicates_enabled() == self.model().predicates_enabled,
    {
    }

    /// Where the entries stand in the queues.
    ///
    /// No entry stands in two recency queues.  The queue of writes holds
    /// the entries of the recency queues if there is a time to live, and
    /// none otherwise; the queue of accesses likewise for the time to
    /// idle.  What stands in a queue is a slot in use.  And once no write
    /// is waiting to be replayed, every entry stands in a recency queue.
    pub proof fn lemma_queues(&self)
        requires
            self.wf(),
        ensures
            crate::policy::consistent(
                self.model().inner.queues,
                self.rules().time_to_live is Some,
                self.rules().time_to_idle is Some,
            ),
            forall|s: usize| #[trigger]
                self.model().inner.queues.linked(s) ==> s < self.model().inner.slots.len() && !(
                self.model().inner.slots[s as int] is Vacant),
            self.pending_writes() == 0 ==> forall|s: usize| #[trigger]
                self.model().inner.occupied(s) ==> self.model().inner.queues.linked(s),
    {
        self.policy.lemma_wf();
        if self.pending_writes() == 0 {
            assert forall|s: usize| #[trigger] self.model().inner.occupied(s) implies self.model(
            ).inner.queues.linked(s) by {
                let e = self.table.slots()[s as int]->Occupied_0;
                if !self.policy@.linked(s) {
                    assert(self.writes@.contains(insert_note(s, e)));
                }
            }
        }
    }

    /// No two slots hold an entry of the same key and hash.
    pub proof fn lemma_one_slot_per_key(&self)
        requires
            self.wf(),
        ensures
            forall|s: usize, t: usize|
                #![trigger self.model().inner.occupied(s), self.model().inner.occupied(t)]
                self.model().inner.occupied(s) && self.model().inner.occupied(t)
                    && self.model().inner.entry(s).key == self.model().inner.entry(t).key
                    && self.model().inner.entry(s).hash == self.model().inner.entry(t).hash ==> s
                    == t,
    {
        self.table.lemma_wf();
        let c = self.inner();
        assert forall|s: usize, t: usize|
            #![trigger c.occupied(s), c.occupied(t)]
            c.occupied(s) && c.occupied(t) && c.entry(s).key == c.entry(t).key && c.entry(s).hash
                == c.entry(t).hash implies s == t by {
            assert(self.table.slots()[s as int] is Occupied);
            assert(self.table.slots()[t as int] is Occupied);
        }
    }

    /// The entries that the contracts speak of are the entries in the
    /// slots of the store.
    pub proof fn lemma_entries(&self)
        requires
            self.wf(),
        ensures
            self@ == self.model().inner.entries(),
    {
        self.table.lemma_wf();
        let c = self.inner();
        assert forall|id: (K, u64)| #[trigger]
            self@.contains_key(id) <==> c.slot_of(id.0, id.1) is Some by {
            self.lemma_slot_of(id.0, id.1);
        }
        assert forall|id: (K, u64)| #[trigger] self@.contains_key(id) implies self@[id]
            == c.entries()[id] by {
            self.lemma_slot_of(id.0, id.1);
        }
        assert(self@ =~= c.entries());
    }

    /// The entries of the view are the entries of the store.
    proof fn lemma_live(&self)
        requires
            self.table.wf(),
        ensures
            self@.dom().finite(),
            self@.dom().len() == self.live(),
    {
        self.table.lemma_wf();
        assert(self@.dom() =~= self.table.index().dom());
    }

    spec fn sweeps_ok(&self) -> bool {
        forall|i: int|
            0 <= i < self.sweeps.len() ==> (#[trigger] self.sweeps[i]).cursor
                <= self.sweeps[i].limit <= self.table.slots().len()
    }

    /// The store, the policy and the buffers agree with one another.
    pub closed spec fn wf(&self) -> bool {
        self.inv(None)
    }

    /// What `wf` says of the state that the contracts speak of.
    pub proof fn lemma_wf(&self)
        requires
            self.wf(),
        ensures
            keys_compare_by_value::<K>(),
            self@.dom().finite(),
            self.rules().time_to_live == (match self.live_duration() {
                Some(d) => Some(span_of(d)),
                None => None,
            }),
            self.rules().time_to_idle == (match self.idle_duration() {
                Some(d) => Some(span_of(d)),
                None => None,
            }),
    {
        self.table.lemma_wf();
        assert(self@.dom() =~= self.table.index().dom());
    }

    /// What an internal step leaves as it was: the settings, the buffers
    /// and the registered predicates.
    spec fn same_setup(&self, other: &Self) -> bool {
        &&& self.reads == other.reads
        &&& self.writes == other.writes
        &&& self.max_capacity == other.max_capacity
        &&& self.time_to_live == other.time_to_live
        &&& self.time_to_idle == other.time_to_idle
        &&& self.live_span == other.live_span
        &&& self.idle_span == other.idle_span
        &&& self.valid_after == other.valid_after
        &&& self.invalidator_enabled == other.invalidator_enabled
        &&& self.sweeps == other.sweeps
        &&& self.next_predicate_id == other.next_predicate_id
        &&& self.opportunistic == other.opportunistic
    }

    /// An empty cache.
    ///
    /// It holds up to `max_capacity` entries at rest.  An entry expires
    /// `time_to_live` after it was written and `time_to_idle` after it was
    /// last accessed, where these are given.
    pub fn new(
        max_capacity: usize,
        initial_capacity: Option<usize>,
        time_to_live: Option<Duration>,
        time_to_idle: Option<Duration>,
        invalidator_enabled: bool,
    ) -> (c: Self)
        requires
            keys_compare_by_value::<K>(),
        ensures
            c.wf(),
            c.model() == crate::model::initial::<K, V>(
                max_capacity as nat,
                match time_to_live {
                    Some(d) => Some(span_of(d)),
                    None => None,
                },
                match time_to_idle {
                    Some(d) => Some(span_of(d)),
                    None => None,
                },
                invalidator_enabled,
            ),
            c@ == Map::<(K, u64), Record<V>>::empty(),
            c.slot_count() == 0,
            c.capacity() == max_capacity,
            c.rules() == (Rules {
                time_to_live: match time_to_live {
                    Some(d) => Some(span_of(d)),
                    None => None,
                },
                time_to_idle: match time_to_idle {
                    Some(d) => Some(span_of(d)),
                    None => None,
                },
                valid_after: None,
            }),
            c.live_duration() == time_to_live,
            c.idle_duration() == time_to_idle,
            c.rules().valid_after is None,
            c.predicates_enabled() == invalidator_enabled,
            c.predicate_count() == 0,
            c.pending_reads() == 0,
            c.pending_writes() == 0,
            c.is_opportunistic(),
    {
        let live_span: Option<u64> = match &time_to_live {
            Some(d) => Some(span(d)),
            None => None,
        };
        let idle_span: Option<u64> = match &time_to_idle {
            Some(d) => Some(span(d)),
            None => None,
        };
        let sized_for: usize = match initial_capacity {
            Some(n) => if n > max_capacity {
                n
            } else {
                max_capacity
            },
            None => max_capacity,
        };
        let c = BaseCache {
            table: Table::new(sized_for),
            policy: Policy::new(max_capacity, live_span.is_some(), idle_span.is_some()),
            reads: OpBuffer::with_capacity(BUFFER_CAPACITY),
            writes: OpBuffer::with_capacity(BUFFER_CAPACITY),
            max_capacity,
            time_to_live,
            time_to_idle,
            live_span,
            idle_span,
            valid_after: None,
            invalidator_enabled,
            sweeps: Vec::new(),
            next_predicate_id: 0,
            opportunistic: true,
        };
        proof {
            assert(c@ =~= Map::<(K, u64), Record<V>>::empty());
            assert(c.table.slots() =~= Seq::<Slot<K, V>>::empty());
            assert(c.table.free() =~= Seq::<usize>::empty());
            assert(c.reads@ =~= Seq::<Op>::empty());
            assert(c.writes@ =~= Seq::<Op>::empty());
            assert(c.sweeps@ =~= Seq::<Sweep>::empty());
            assert(anchored(c.table.slots(), c.policy@)) by {
                assert forall|s: usize| #[trigger] c.policy@.linked(s) implies s
                    < c.table.slots().len() && !(c.table.slots()[s as int] is Vacant) by {
                    if c.policy@.window.contains(s) {
                        let i = c.policy@.window.index_of(s);
                        assert(c.policy@.window[i] == s);
                    }
                    if c.policy@.probation.contains(s) {
                        let i = c.policy@.probation.index_of(s);
                        assert(c.policy@.probation[i] == s);
                    }
                    if c.policy@.protected.contains(s) {
                        let i = c.policy@.protected.index_of(s);
                        assert(c.policy@.protected[i] == s);
                    }
                }
            }
        }
        c
    }

    /// An empty cache whose times to live and to idle are given in
    /// nanoseconds.
    pub fn with_spans(
        max_capacity: usize,
        initial_capacity: Option<usize>,
        live_span: Option<u64>,
        idle_span: Option<u64>,
        invalidator_enabled: bool,
    ) -> (c: Self)
        requires
            keys_compare_by_value::<K>(),
        ensures
            c.wf(),
            c.model() == crate::model::initial::<K, V>(
                max_capacity as nat,
                live_span,
                idle_span,
                invalidator_enabled,
            ),
            c@ == Map::<(K, u64), Record<V>>::empty(),
            c.slot_count() == 0,
            c.capacity() == max_capacity,
            c.rules() == (Rules {
                time_to_live: live_span,
                time_to_idle: idle_span,
                valid_after: None,
            }),
            c.predicates_enabled() == invalidator_enabled,
            c.predicate_count() == 0,
            c.pending_reads() == 0,
            c.pending_writes() == 0,
            c.is_opportunistic(),
    {
        let time_to_live: Option<Duration> = match live_span {
            Some(n) => Some(lasting(n)),
            None => None,
        };
        let time_to_idle: Option<Duration> = match idle_span {
            Some(n) => Some(lasting(n)),
            None => None,
        };
        let c = Self::new(
            max_capacity,
            initial_capacity,
            time_to_live,
            time_to_idle,
            invalidator_enabled,
        );
        proof {
            c.lemma_wf();
        }
        c
    }

    /// Takes whatever is in `slot` out of the queues and out of the store.
    fn drop_slot(&mut self, slot: usize, Ghost(extra): Ghost<Option<Op>>)
        requires
            old(self).inv(extra),
        ensures
            final(self).inv(extra),
            final(self).same_setup(old(self)),
            final(self).inner() == old(self).inner().dropped(slot),
            shrunk(old(self)@, final(self)@),
            final(self).policy.sketch() == old(self).policy.sketch(),
            forall|x: usize| #[trigger]
                final(self).policy@.linked(x) <==> (old(self).policy@.linked(x) && x != slot),
            final(self).policy@ == old(self).policy@.left(slot),
            final(self).policy@.population() == old(self).policy@.population() - (if old(self)
                .policy@.linked(slot) {
                1int
            } else {
                0int
            }),
            final(self).table.slots().len() == old(self).table.slots().len(),
            forall|s: int|
                0 <= s < old(self).table.slots().len() && s != slot ==> #[trigger] final(self)
                    .table.slots()[s] == old(self).table.slots()[s],
            slot < old(self).table.slots().len() ==> final(self).table.slots()[slot as int]
                is Vacant,
            final(self).live() == old(self).live() - (if slot < old(self).table.slots().len()
                && old(self).table.slots()[slot as int] is Occupied {
                1int
            } else {
                0int
            }),
            final(self)@ == (if slot < old(self).table.slots().len() && old(self)
                .table.slots()[slot as int] is Occupied {
                old(self)@.remove(
                    (
                        old(self).table.slots()[slot as int]->Occupied_0.key,
                        old(self).table.slots()[slot as int]->Occupied_0.hash,
                    ),
                )
            } else {
                old(self)@
            }),
    {
        self.policy.unlink(slot);
        let occupied: bool = self.table.peek(slot).is_some();
        let retired: bool = self.table.retired_stamp(slot).is_some();
        if occupied {
            proof {
                old(self).table.lemma_wf();
                lemma_without(old(self).table.roster(), slot);
            }
            let e = self.table.evict(slot);
            proof {
                lemma_view_remove(old(self).table.records(), (e.key, e.hash));
            }
        } else if retired {
            self.table.release(slot);
        }
        proof {
            let slots0 = old(self).table.slots();
            let slots1 = self.table.slots();
            assert forall|s: usize|
                s < slots1.len() && (#[trigger] slots1[s as int]) is Occupied
                    && !self.policy@.linked(s) implies self.writes@.contains(
                insert_note(s, slots1[s as int]->Occupied_0),
            ) || extra == Some(insert_note(s, slots1[s as int]->Occupied_0)) by {
                assert(s != slot);
                assert(slots0[s as int] is Occupied);
                assert(!old(self).policy@.linked(s));
            }
            assert forall|s: usize| #[trigger] self.policy@.linked(s) implies s < slots1.len()
                && !(slots1[s as int] is Vacant) by {
                assert(old(self).policy@.linked(s));
            }
        }
    }

    /// Replays the note of a read: the hash gains popularity, and the
    /// entry, if it is still the one that was read, moves to the recent
    /// end of its queues.
    fn apply_read(&mut self, op: Op, Ghost(extra): Ghost<Option<Op>>)
        requires
            old(self).inv(extra),
        ensures
            final(self).inv(extra),
            final(self).same_setup(old(self)),
            final(self).inner() == old(self).inner().read_replayed(op),
            final(self).table == old(self).table,
            final(self)@ == old(self)@,
            final(self).policy@.population() == old(self).policy@.population(),
    {
        self.policy.record(op.hash);
        let current: bool = match self.table.peek(op.slot) {
            Some(e) => e.stamp == op.stamp && e.hash == op.hash,
            None => false,
        };
        if current && self.policy.is_linked(op.slot) {
            self.policy.on_read(op.slot);
        }
        proof {
            let slots = self.table.slots();
            assert forall|s: usize|
                s < slots.len() && (#[trigger] slots[s as int]) is Occupied && !self.policy@.linked(
                    s,
                ) implies self.writes@.contains(insert_note(s, slots[s as int]->Occupied_0))
                || extra == Some(insert_note(s, slots[s as int]->Occupied_0)) by {
                assert(!old(self).policy@.linked(s));
            }
            assert forall|s: usize| #[trigger] self.policy@.linked(s) implies s < slots.len() && !(
            slots[s as int] is Vacant) by {
                assert(old(self).policy@.linked(s));
            }
        }
    }

    /// Decides the fate of a candidate that the window has pushed out.
    ///
    /// The candidate moves to the back of probation.  If the cache then
    /// holds more entries than it may, the front entry of probation is the
    /// victim, and one of the two is dropped: the candidate if it is the
    /// victim itself or is not estimated to be more popular than the
    /// victim, the victim otherwise.
    fn settle(&mut self, candidate: usize, Ghost(extra): Ghost<Option<Op>>, Ghost(now): Ghost<u64>)
        requires
            old(self).inv(extra),
            old(self).policy@.window.contains(candidate),
        ensures
            final(self).inv(extra),
            final(self).same_setup(old(self)),
            final(self).inner() == old(self).inner().settled(candidate),
            shrunk(old(self)@, final(self)@),
            housekept(
                old(self)@,
                final(self)@,
                old(self).rules(),
                now,
                old(self).max_capacity as nat,
            ),
            final(self).policy@.window == without(old(self).policy@.window, candidate),
            final(self).live() <= old(self).live(),
            old(self).live() <= old(self).max_capacity ==> final(self)@ == old(self)@,
            forall|x: usize| #[trigger]
                final(self).policy@.linked(x) ==> old(self).policy@.linked(x),
            final(self).table.slots().len() == old(self).table.slots().len(),
    {
        proof {
            self.policy.lemma_wf();
            assert(old(self).policy@.linked(candidate));
        }
        self.policy.admit_to_main(candidate);
        if self.table.peek(candidate).is_some() {
            self.table.set_admitted(candidate, true);
            proof {
                let e0 = old(self).table.slots()[candidate as int]->Occupied_0;
                let e1 = Entry { admitted: true, ..e0 };
                lemma_view_insert(old(self).table.records(), (e0.key, e0.hash), e1);
                old(self).table.lemma_wf();
                assert(self@ =~= old(self)@);
            }
        }
        proof {
            let slots0 = old(self).table.slots();
            let slots1 = self.table.slots();
            assert(self.policy@.linked(candidate));
            assert forall|s: usize|
                s < slots1.len() && (#[trigger] slots1[s as int]) is Occupied
                    && !self.policy@.linked(s) implies self.writes@.contains(
                insert_note(s, slots1[s as int]->Occupied_0),
            ) || extra == Some(insert_note(s, slots1[s as int]->Occupied_0)) by {
                assert(s != candidate);
                assert(slots0[s as int] == slots1[s as int]);
                assert(!old(self).policy@.linked(s));
            }
            assert forall|s: usize| #[trigger] self.policy@.linked(s) implies s < slots1.len()
                && !(slots1[s as int] is Vacant) by {
                assert(old(self).policy@.linked(s));
            }
            assert(self.inv(extra));
            lemma_without(old(self).policy@.window, candidate);
            assert(self@ == old(self)@);
            lemma_housekept_same(
                old(self)@,
                old(self).rules(),
                now,
                old(self).max_capacity as nat,
            );
        }
        if self.table.len() > self.max_capacity {
            let victim: usize = match self.policy.probation_front() {
                Some(v) => v,
                None => candidate,
            };
            let candidate_hash: Option<u64> = match self.table.peek(candidate) {
                Some(e) => Some(e.hash),
                None => None,
            };
            let victim_hash: Option<u64> = match self.table.peek(victim) {
                Some(e) => Some(e.hash),
                None => None,
            };
            let loser: usize = self.policy.contest(candidate, candidate_hash, victim, victim_hash);
            proof {
                assert(self.policy@.probation.len() > 0) by {
                    assert(self.policy@.probation.contains(candidate)) by {
                        assert(self.policy@.probation[self.policy@.probation.len() - 1]
                            == candidate);
                    }
                }
                if loser != candidate {
                    assert(self.policy@.probation.contains(self.policy@.probation[0]));
                }
                assert(self.policy@.linked(loser));
                assert(!self.policy@.window.contains(loser)) by {
                    self.policy.lemma_wf();
                }
                self.lemma_live();
                self.table.lemma_wf();
                if loser < self.table.slots().len() && self.table.slots()[loser as int]
                    is Occupied {
                    let e = self.table.slots()[loser as int]->Occupied_0;
                    lemma_housekept_evicted(
                        old(self)@,
                        (e.key, e.hash),
                        old(self).rules(),
                        now,
                        old(self).max_capacity as nat,
                    );
                }
            }
            self.drop_slot(loser, Ghost(extra));
        }
    }

    /// Moves entries out of the window until it holds no more than it may.
    fn rebalance(&mut self, Ghost(extra): Ghost<Option<Op>>, Ghost(now): Ghost<u64>)
        requires
            old(self).inv(extra),
        ensures
            final(self).inv(extra),
            final(self).same_setup(old(self)),
            final(self).inner() == old(self).inner().rebalanced(),
            shrunk(old(self)@, final(self)@),
            housekept(
                old(self)@,
                final(self)@,
                old(self).rules(),
                now,
                old(self).max_capacity as nat,
            ),
            forall|x: usize| #[trigger]
                final(self).policy@.linked(x) ==> old(self).policy@.linked(x),
            final(self).table.slots().len() == old(self).table.slots().len(),
            final(self).live() <= old(self).live(),
            old(self).live() <= old(self).max_capacity ==> final(self)@ == old(self)@,
    {
        let mut next: Option<usize> = self.policy.overflow_candidate();
        proof {
            lemma_housekept_same(
                old(self)@,
                old(self).rules(),
                now,
                old(self).max_capacity as nat,
            );
        }
        while next.is_some()
            invariant
                self.inv(extra),
                self.same_setup(old(self)),
                self.inner().rebalanced_in(self.policy@.window.len()) == old(self).inner().rebalanced(),
                shrunk(old(self)@, self@),
                housekept(
                    old(self)@,
                    self@,
                    old(self).rules(),
                    now,
                    old(self).max_capacity as nat,
                ),
                self.table.slots().len() == old(self).table.slots().len(),
                self.live() <= old(self).live(),
                old(self).live() <= old(self).max_capacity ==> self@ == old(self)@,
                forall|x: usize| #[trigger] self.policy@.linked(x) ==> old(self).policy@.linked(x),
                next == (if self.policy@.window.len() > crate::policy::window_share(
                    self.policy.max_capacity(),
                ) {
                    Some(self.policy@.window[0])
                } else {
                    None
                }),
            decreases self.policy@.window.len(),
        {
            let candidate: usize = next.unwrap();
            proof {
                assert(self.policy@.window.contains(self.policy@.window[0]));
                self.policy.lemma_wf();
                lemma_without(self.policy@.window, candidate);
            }
            let ghost before = self@;
            self.settle(candidate, Ghost(extra), Ghost(now));
            next = self.policy.overflow_candidate();
            proof {
                assert(self.rules() == old(self).rules());
                lemma_housekept_then(
                    old(self)@,
                    before,
                    self@,
                    old(self).rules(),
                    now,
                    old(self).max_capacity as nat,
                );
            }
        }
    }

    /// Replays the note of an insertion: the hash gains popularity, and
    /// the entry, if it is still the one that was inserted, joins the
    /// window, which may push a candidate out.
    fn apply_insert(&mut self, op: Op, Ghost(now): Ghost<u64>)
        requires
            old(self).inv(Some(op)),
            op.kind == OpKind::Insert,
        ensures
            final(self).inv(None),
            final(self).inner() == old(self).inner().insert_replayed(op),
            housekept(
                old(self)@,
                final(self)@,
                old(self).rules(),
                now,
                old(self).max_capacity as nat,
            ),
            final(self).same_setup(old(self)),
            final(self).table.slots().len() == old(self).table.slots().len(),
            final(self).live() <= old(self).live(),
            old(self).live() <= old(self).max_capacity ==> final(self)@ == old(self)@,
            shrunk(old(self)@, final(self)@),
    {
        self.policy.record(op.hash);
        let current: bool = match self.table.peek(op.slot) {
            Some(e) => e.stamp == op.stamp && e.hash == op.hash,
            None => false,
        };
        proof {
            self.table.lemma_wf();
        }
        if current && !self.policy.is_linked(op.slot) {
            self.policy.link(op.slot);
        }
        proof {
            let slots = self.table.slots();
            assert forall|s: usize|
                s < slots.len() && (#[trigger] slots[s as int]) is Occupied && !self.policy@.linked(
                    s,
                ) implies self.writes@.contains(insert_note(s, slots[s as int]->Occupied_0)) by {
                assert(!old(self).policy@.linked(s));
                if insert_note(s, slots[s as int]->Occupied_0) == op {
                    assert(op.slot == s);
                    assert(current);
                }
            }
            assert forall|s: usize| #[trigger] self.policy@.linked(s) implies s < slots.len() && !(
            slots[s as int] is Vacant) by {
                if s != op.slot {
                    assert(old(self).policy@.linked(s));
                } else {
                    if !old(self).policy@.linked(s) {
                        assert(current);
                    }
                }
            }
            assert(self.inv(None));
        }
        self.rebalance(Ghost(None), Ghost(now));
    }

    /// Replays the note of a rewrite: the hash gains popularity, and the
    /// entry, if it is still the one that was rewritten, moves to the
    /// recent end of its queues.
    fn apply_update(&mut self, op: Op)
        requires
            old(self).inv(Some(op)),
            op.kind == OpKind::Update,
        ensures
            final(self).inv(None),
            final(self).inner() == old(self).inner().update_replayed(op),
            final(self).same_setup(old(self)),
            final(self).table.slots().len() == old(self).table.slots().len(),
            final(self).table == old(self).table,
            final(self)@ == old(self)@,
    {
        self.policy.record(op.hash);
        let current: bool = match self.table.peek(op.slot) {
            Some(e) => e.stamp == op.stamp && e.hash == op.hash,
            None => false,
        };
        if current && self.policy.is_linked(op.slot) {
            self.policy.on_write(op.slot);
        }
        proof {
            let slots = self.table.slots();
            assert forall|s: usize|
                s < slots.len() && (#[trigger] slots[s as int]) is Occupied && !self.policy@.linked(
                    s,
                ) implies self.writes@.contains(insert_note(s, slots[s as int]->Occupied_0)) by {
                assert(!old(self).policy@.linked(s));
            }
            assert forall|s: usize| #[trigger] self.policy@.linked(s) implies s < slots.len() && !(
            slots[s as int] is Vacant) by {
                assert(old(self).policy@.linked(s));
            }
        }
    }

    /// Replays the note of an invalidation: the slot, if it is still
    /// retired from that entry, leaves the queues and becomes vacant.
    fn apply_remove(&mut self, op: Op)
        requires
            old(self).inv(Some(op)),
            op.kind == OpKind::Remove,
        ensures
            final(self).inv(None),
            final(self).inner() == old(self).inner().remove_replayed(op),
            final(self)@ == old(self)@,
            final(self).same_setup(old(self)),
            final(self).table.slots().len() == old(self).table.slots().len(),
            final(self).live() <= old(self).live(),
            old(self).live() <= old(self).max_capacity ==> final(self)@ == old(self)@,
            shrunk(old(self)@, final(self)@),
    {
        proof {
            let slots = self.table.slots();
            assert forall|s: usize|
                s < slots.len() && (#[trigger] slots[s as int]) is Occupied && !self.policy@.linked(
                    s,
                ) implies self.writes@.contains(insert_note(s, slots[s as int]->Occupied_0)) by {}
            assert(self.inv(None));
        }
        let retired: bool = match self.table.retired_stamp(op.slot) {
            Some(stamp) => stamp == op.stamp,
            None => false,
        };
        if retired {
            self.drop_slot(op.slot, Ghost(None));
        }
    }

    /// Replays the note of a write.
    fn apply_write(&mut self, op: Op, Ghost(now): Ghost<u64>)
        requires
            old(self).inv(Some(op)),
        ensures
            final(self).inv(None),
            final(self).inner() == old(self).inner().write_replayed(op),
            housekept(
                old(self)@,
                final(self)@,
                old(self).rules(),
                now,
                old(self).max_capacity as nat,
            ),
            final(self).same_setup(old(self)),
            final(self).table.slots().len() == old(self).table.slots().len(),
            final(self).live() <= old(self).live(),
            old(self).live() <= old(self).max_capacity ==> final(self)@ == old(self)@,
            shrunk(old(self)@, final(self)@),
    {
        proof {
            lemma_housekept_same(
                old(self)@,
                old(self).rules(),
                now,
                old(self).max_capacity as nat,
            );
        }
        match op.kind {
            OpKind::Insert => {
                self.apply_insert(op, Ghost(now));
            },
            OpKind::Update => {
                self.apply_update(op);
            },
            OpKind::Remove => {
                self.apply_remove(op);
            },
            OpKind::Read => {
                proof {
                    let slots = self.table.slots();
                    assert forall|s: usize|
                        s < slots.len() && (#[trigger] slots[s as int]) is Occupied
                            && !self.policy@.linked(s) implies self.writes@.contains(
                        insert_note(s, slots[s as int]->Occupied_0),
                    ) by {}
                    assert(self.inv(None));
                }
                self.apply_read(op, Ghost(None));
            },
        }
    }

    /// Replays every waiting read.
    fn drain_reads(&mut self)
        requires
            old(self).wf(),
        ensures
            final(self).wf(),
            final(self).inner() == old(self).inner().reads_replayed(old(self).reads@),
            final(self).table == old(self).table,
            final(self).table.slots().len() == old(self).table.slots().len(),
            final(self)@ == old(self)@,
            final(self).reads@.len() == 0,
            final(self).reads.capacity() == old(self).reads.capacity(),
            final(self).writes == old(self).writes,
            final(self).max_capacity == old(self).max_capacity,
            final(self).time_to_live == old(self).time_to_live,
            final(self).time_to_idle == old(self).time_to_idle,
            final(self).live_span == old(self).live_span,
            final(self).idle_span == old(self).idle_span,
            final(self).valid_after == old(self).valid_after,
            final(self).invalidator_enabled == old(self).invalidator_enabled,
            final(self).sweeps == old(self).sweeps,
            final(self).next_predicate_id == old(self).next_predicate_id,
            final(self).opportunistic == old(self).opportunistic,
    {
        let mut n: usize = self.reads.len();
        while n > 0
            invariant
                self.wf(),
                self.inner().reads_replayed(self.reads@) == old(self).inner().reads_replayed(
                    old(self).reads@,
                ),
                self.table == old(self).table,
                self.table.slots().len() == old(self).table.slots().len(),
                self@ == old(self)@,
                n == self.reads@.len(),
                self.reads.capacity() == old(self).reads.capacity(),
                self.writes == old(self).writes,
                self.max_capacity == old(self).max_capacity,
                self.time_to_live == old(self).time_to_live,
                self.time_to_idle == old(self).time_to_idle,
                self.live_span == old(self).live_span,
                self.idle_span == old(self).idle_span,
                self.valid_after == old(self).valid_after,
                self.invalidator_enabled == old(self).invalidator_enabled,
                self.sweeps == old(self).sweeps,
                self.next_predicate_id == old(self).next_predicate_id,
                self.opportunistic == old(self).opportunistic,
            decreases n,
        {
            match self.reads.take() {
                Some(op) => {
                    self.apply_read(op, Ghost(None));
                },
                None => {},
            }
            n = self.reads.len();
        }
    }

    /// Replays every waiting write, oldest first.
    fn drain_writes(&mut self, Ghost(now): Ghost<u64>)
        requires
            old(self).wf(),
        ensures
            final(self).wf(),
            final(self).inner() == old(self).inner().writes_replayed(old(self).writes@),
            housekept(
                old(self)@,
                final(self)@,
                old(self).rules(),
                now,
                old(self).max_capacity as nat,
            ),
            final(self).live() <= old(self).live(),
            old(self).live() <= old(self).max_capacity ==> final(self)@ == old(self)@,
            final(self).table.slots().len() == old(self).table.slots().len(),
            shrunk(old(self)@, final(self)@),
            final(self).writes@.len() == 0,
            final(self).writes.capacity() == old(self).writes.capacity(),
            final(self).reads == old(self).reads,
            final(self).max_capacity == old(self).max_capacity,
            final(self).time_to_live == old(self).time_to_live,
            final(self).time_to_idle == old(self).time_to_idle,
            final(self).live_span == old(self).live_span,
            final(self).idle_span == old(self).idle_span,
            final(self).valid_after == old(self).valid_after,
            final(self).invalidator_enabled == old(self).invalidator_enabled,
            final(self).sweeps == old(self).sweeps,
            final(self).next_predicate_id == old(self).next_predicate_id,
            final(self).opportunistic == old(self).opportunistic,
    {
        let mut n: usize = self.writes.len();
        proof {
            lemma_housekept_same(
                old(self)@,
                old(self).rules(),
                now,
                old(self).max_capacity as nat,
            );
        }
        while n > 0
            invariant
                self.wf(),
                self.inner().writes_replayed(self.writes@) == old(self).inner().writes_replayed(
                    old(self).writes@,
                ),
                housekept(
                    old(self)@,
                    self@,
                    old(self).rules(),
                    now,
                    old(self).max_capacity as nat,
                ),
                self.live() <= old(self).live(),
                old(self).live() <= old(self).max_capacity ==> self@ == old(self)@,
                self.table.slots().len() == old(self).table.slots().len(),
                shrunk(old(self)@, self@),
                n == self.writes@.len(),
                self.writes.capacity() == old(self).writes.capacity(),
                self.reads == old(self).reads,
                self.max_capacity == old(self).max_capacity,
                self.time_to_live == old(self).time_to_live,
                self.time_to_idle == old(self).time_to_idle,
                self.live_span == old(self).live_span,
                self.idle_span == old(self).idle_span,
                self.valid_after == old(self).valid_after,
                self.invalidator_enabled == old(self).invalidator_enabled,
                self.sweeps == old(self).sweeps,
                self.next_predicate_id == old(self).next_predicate_id,
                self.opportunistic == old(self).opportunistic,
            decreases n,
        {
            let ghost notes = self.writes@;
            let ghost before = self@;
            match self.writes.take() {
                Some(op) => {
                    proof {
                        let slots = self.table.slots();
                        assert forall|s: usize|
                            s < slots.len() && (#[trigger] slots[s as int]) is Occupied
                                && !self.policy@.linked(s) implies self.writes@.contains(
                            insert_note(s, slots[s as int]->Occupied_0),
                        ) || Some(op) == Some(insert_note(s, slots[s as int]->Occupied_0)) by {
                            let note = insert_note(s, slots[s as int]->Occupied_0);
                            assert(notes.contains(note));
                            let i = notes.index_of(note);
                            assert(notes[i] == note);
                            if i > 0 {
                                assert(notes.drop_first()[i - 1] == note);
                            }
                        }
                    }
                    self.apply_write(op, Ghost(now));
                    proof {
                        assert(self.rules() == old(self).rules());
                        lemma_housekept_then(
                            old(self)@,
                            before,
                            self@,
                            old(self).rules(),
                            now,
                            old(self).max_capacity as nat,
                        );
                    }
                },
                None => {},
            }
            n = self.writes.len();
        }
    }

    /// With no write waiting, every entry stands in a recency queue, so
    /// the cache holds no more entries than the queues do.
    proof fn lemma_quiescent(&self)
        requires
            self.inv(None),
            self.writes@.len() == 0,
        ensures
            self@.dom().finite(),
            self@.dom().len() <= self.policy@.population(),
    {
        self.table.lemma_wf();
        self.policy.lemma_wf();
        assert(self@.dom() =~= self.table.index().dom());
        let roster = self.table.roster();
        let v = self.policy@;
        let all = v.window + v.probation + v.protected;
        assert forall|i: int| 0 <= i < roster.len() implies all.contains(#[trigger] roster[i]) by {
            let s = roster[i];
            assert(self.table.slots()[s as int] is Occupied);
            assert(v.linked(s)) by {
                if !v.linked(s) {
                    assert(self.writes@.contains(
                        insert_note(s, self.table.slots()[s as int]->Occupied_0),
                    ));
                }
            }
            if v.window.contains(s) {
                let j = v.window.index_of(s);
                assert(v.window[j] == s);
                assert(all[j] == s);
            } else if v.probation.contains(s) {
                let j = v.probation.index_of(s);
                assert(v.probation[j] == s);
                assert(all[v.window.len() + j] == s);
            } else {
                let j = v.protected.index_of(s);
                assert(v.protected[j] == s);
                assert(all[v.window.len() + v.probation.len() + j] == s);
            }
        }
        crate::order::lemma_injection_len(roster, all);
    }

    /// Whether what stands in `slot` can no longer be seen at `now`: an
    /// entry that has expired or was matched by a predicate, or no entry
    /// at all.
    fn is_dead(&self, slot: usize, now: u64) -> (b: bool)
        requires
            self.inv(None),
        ensures
            b == !(slot < self.table.slots().len() && self.table.slots()[slot as int] is Occupied
                && visible(
                record_of(self.table.slots()[slot as int]->Occupied_0),
                self.rules(),
                now,
            )),
    {
        let rules = Rules {
            time_to_live: self.live_span,
            time_to_idle: self.idle_span,
            valid_after: self.valid_after,
        };
        match self.table.peek(slot) {
            Some(e) => e.invalidated || has_expired(e.modified, e.accessed, &rules, now),
            None => true,
        }
    }

    /// Drops `slot` if what stands in it can no longer be seen at `now`,
    /// and says whether it did.
    fn reap(&mut self, slot: usize, now: u64) -> (dropped: bool)
        requires
            old(self).inv(None),
        ensures
            final(self).inv(None),
            dropped == old(self).inner().dead(slot, now),
            final(self).inner() == (if dropped {
                old(self).inner().dropped(slot)
            } else {
                old(self).inner()
            }),
            final(self).same_setup(old(self)),
            reaped(old(self)@, final(self)@, old(self).rules(), now),
            final(self).table.slots().len() == old(self).table.slots().len(),
            dropped ==> final(self).policy@ == old(self).policy@.left(slot),
            !dropped ==> final(self).policy@ == old(self).policy@,
            final(self).live() <= old(self).live(),
            final(self).policy@.population() <= old(self).policy@.population(),
    {
        if self.is_dead(slot, now) {
            proof {
                self.table.lemma_wf();
            }
            self.drop_slot(slot, Ghost(None));
            true
        } else {
            false
        }
    }

    /// The entry at the front of one of the five queues.
    fn front_of(&self, queue: u8) -> (r: Option<usize>)
        requires
            self.inv(None),
        ensures
            r == self.inner().front_of(queue),
            match r {
                Some(s) => queue_of(self.policy@, queue).len() > 0 && s == queue_of(
                    self.policy@,
                    queue,
                )[0],
                None => queue_of(self.policy@, queue).len() == 0,
            },
    {
        if queue == 0 {
            self.policy.write_front()
        } else if queue == 1 {
            self.policy.idle_front()
        } else if queue == 2 {
            self.policy.window_front()
        } else if queue == 3 {
            self.policy.probation_front()
        } else {
            self.policy.protected_front()
        }
    }

    /// Drops entries from the front of one queue for as long as they can
    /// no longer be seen at `now`, up to a batch.
    fn expire_queue(&mut self, queue: u8, now: u64)
        requires
            old(self).inv(None),
        ensures
            final(self).inv(None),
            final(self).inner() == old(self).inner().queue_expired(
                queue,
                now,
                EVICTION_BATCH as nat,
            ),
            final(self).same_setup(old(self)),
            reaped(old(self)@, final(self)@, old(self).rules(), now),
            final(self).table.slots().len() == old(self).table.slots().len(),
            final(self).live() <= old(self).live(),
    {
        let mut budget: usize = EVICTION_BATCH;
        while budget > 0
            invariant
                self.inv(None),
                self.inner().queue_expired(queue, now, budget as nat) == old(self)
                    .inner().queue_expired(queue, now, EVICTION_BATCH as nat),
                self.same_setup(old(self)),
                reaped(old(self)@, self@, old(self).rules(), now),
                self.table.slots().len() == old(self).table.slots().len(),
                self.live() <= old(self).live(),
            decreases budget,
        {
            match self.front_of(queue) {
                Some(slot) => {
                    if self.reap(slot, now) {
                        budget = budget - 1;
                    } else {
                        budget = 0;
                    }
                },
                None => {
                    budget = 0;
                },
            }
            proof {
                assert(self.rules() == old(self).rules());
            }
        }
    }

    /// Drops the entries at the front of the queues that can no longer be
    /// seen at `now`.
    fn expire(&mut self, now: u64)
        requires
            old(self).inv(None),
        ensures
            final(self).inv(None),
            final(self).inner() == old(self).inner().expired_from(0, now),
            final(self).same_setup(old(self)),
            reaped(old(self)@, final(self)@, old(self).rules(), now),
            final(self).table.slots().len() == old(self).table.slots().len(),
            final(self).live() <= old(self).live(),
    {
        let mut queue: u8 = 0;
        while queue < 5
            invariant
                queue <= 5,
                self.inv(None),
                self.inner().expired_from(queue, now) == old(self).inner().expired_from(0, now),
                self.same_setup(old(self)),
                reaped(old(self)@, self@, old(self).rules(), now),
                self.table.slots().len() == old(self).table.slots().len(),
                self.live() <= old(self).live(),
            decreases 5 - queue,
        {
            proof {
                assert(self.rules() == old(self).rules());
            }
            self.expire_queue(queue, now);
            queue = queue + 1;
        }
    }

    /// Evicts entries while the cache holds more than it may: from the
    /// front of probation, then of the protected queue, then of the
    /// window.
    fn enforce_capacity(&mut self, Ghost(now): Ghost<u64>)
        requires
            old(self).inv(None),
        ensures
            final(self).inv(None),
            final(self).inner() == old(self).inner().enforced(),
            housekept(
                old(self)@,
                final(self)@,
                old(self).rules(),
                now,
                old(self).max_capacity as nat,
            ),
            final(self).same_setup(old(self)),
            shrunk(old(self)@, final(self)@),
            final(self).table.slots().len() == old(self).table.slots().len(),
            final(self).live() <= old(self).live(),
            final(self).live() <= final(self).max_capacity || final(self).policy@.population()
                == 0,
            old(self).live() <= old(self).max_capacity ==> final(self)@ == old(self)@,
    {
        proof {
            lemma_housekept_same(
                old(self)@,
                old(self).rules(),
                now,
                old(self).max_capacity as nat,
            );
        }
        while self.table.len() > self.max_capacity && self.policy.population() > 0
            invariant
                self.inv(None),
                self.inner().enforced_in(self.policy@.population()) == old(self).inner().enforced(),
                housekept(
                    old(self)@,
                    self@,
                    old(self).rules(),
                    now,
                    old(self).max_capacity as nat,
                ),
                self.same_setup(old(self)),
                shrunk(old(self)@, self@),
                self.table.slots().len() == old(self).table.slots().len(),
                self.live() <= old(self).live(),
                old(self).live() <= old(self).max_capacity ==> self@ == old(self)@,
            decreases self.policy@.population(),
        {
            let victim: Option<usize> = match self.policy.probation_front() {
                Some(v) => Some(v),
                None => match self.policy.protected_front() {
                    Some(v) => Some(v),
                    None => self.policy.window_front(),
                },
            };
            proof {
                let v = self.policy@;
                if v.probation.len() > 0 {
                    assert(v.probation.contains(v.probation[0]));
                } else if v.protected.len() > 0 {
                    assert(v.protected.contains(v.protected[0]));
                } else {
                    assert(v.window.len() > 0);
                    assert(v.window.contains(v.window[0]));
                }
            }
            let ghost before = self@;
            match victim {
                Some(slot) => {
                    proof {
                        self.lemma_live();
                        self.table.lemma_wf();
                        lemma_housekept_same(
                            before,
                            old(self).rules(),
                            now,
                            old(self).max_capacity as nat,
                        );
                        if slot < self.table.slots().len() && self.table.slots()[slot as int]
                            is Occupied {
                            let e = self.table.slots()[slot as int]->Occupied_0;
                            lemma_housekept_evicted(
                                before,
                                (e.key, e.hash),
                                old(self).rules(),
                                now,
                                old(self).max_capacity as nat,
                            );
                        }
                    }
                    self.drop_slot(slot, Ghost(None));
                    proof {
                        lemma_housekept_then(
                            old(self)@,
                            before,
                            self@,
                            old(self).rules(),
                            now,
                            old(self).max_capacity as nat,
                        );
                    }
                },
                None => {},
            }
        }
    }

    /// Visits a batch of slots for each registered predicate and drops
    /// the entries that a predicate has matched.  A predicate whose scan
    /// has reached its end is forgotten.
    fn sweep(&mut self, now: u64)
        requires
            old(self).inv(None),
        ensures
            final(self).inv(None),
            final(self).model() == old(self).model().swept_from(0, old(self).sweeps@.len()),
            reaped(old(self)@, final(self)@, old(self).rules(), now),
            final(self).table.slots().len() == old(self).table.slots().len(),
            final(self).live() <= old(self).live(),
            final(self).policy@.population() <= old(self).policy@.population(),
            final(self).reads == old(self).reads,
            final(self).writes == old(self).writes,
            final(self).max_capacity == old(self).max_capacity,
            final(self).time_to_live == old(self).time_to_live,
            final(self).time_to_idle == old(self).time_to_idle,
            final(self).live_span == old(self).live_span,
            final(self).idle_span == old(self).idle_span,
            final(self).valid_after == old(self).valid_after,
            final(self).invalidator_enabled == old(self).invalidator_enabled,
            final(self).next_predicate_id == old(self).next_predicate_id,
            final(self).opportunistic == old(self).opportunistic,
            final(self).sweeps.len() <= old(self).sweeps.len(),
            old(self).table.slots().len() <= INVALIDATION_BATCH ==> final(self).sweeps.len() == 0,
    {
        let mut i: usize = 0;
        let ghost mut rounds: nat = self.sweeps@.len();
        while i < self.sweeps.len()
            invariant
                self.inv(None),
                rounds + i >= self.sweeps@.len(),
                self.model().swept_from(i as int, rounds) == old(self).model().swept_from(
                    0,
                    old(self).sweeps@.len(),
                ),
                reaped(old(self)@, self@, old(self).rules(), now),
                self.table.slots().len() == old(self).table.slots().len(),
                self.live() <= old(self).live(),
                self.policy@.population() <= old(self).policy@.population(),
                self.reads == old(self).reads,
                self.writes == old(self).writes,
                self.max_capacity == old(self).max_capacity,
                self.time_to_live == old(self).time_to_live,
                self.time_to_idle == old(self).time_to_idle,
                self.live_span == old(self).live_span,
                self.idle_span == old(self).idle_span,
                self.valid_after == old(self).valid_after,
                self.invalidator_enabled == old(self).invalidator_enabled,
                self.next_predicate_id == old(self).next_predicate_id,
                self.opportunistic == old(self).opportunistic,
                self.sweeps.len() <= old(self).sweeps.len(),
                i <= self.sweeps.len(),
                old(self).table.slots().len() <= INVALIDATION_BATCH ==> i == 0,
            decreases self.sweeps.len() - i,
        {
            let ghost i0 = i;
            let cursor: usize = self.sweeps[i].cursor;
            let limit: usize = self.sweeps[i].limit;
            let id: u64 = self.sweeps[i].id;
            let end: usize = if limit - cursor > INVALIDATION_BATCH {
                cursor + INVALIDATION_BATCH
            } else {
                limit
            };
            let mut s: usize = cursor;
            let ghost registered = self.sweeps@;
            let ghost started = self.model();
            while s < end
                invariant
                    cursor <= s <= end <= limit,
                    i < self.sweeps.len(),
                    self.sweeps@ == registered,
                    self.inv(None),
                    self.inner().scanned(s, end) == started.inner.scanned(cursor, end),
                    reaped(old(self)@, self@, old(self).rules(), now),
                    self.table.slots().len() == old(self).table.slots().len(),
                    self.live() <= old(self).live(),
                    self.policy@.population() <= old(self).policy@.population(),
                    self.reads == old(self).reads,
                    self.writes == old(self).writes,
                    self.max_capacity == old(self).max_capacity,
                    self.time_to_live == old(self).time_to_live,
                    self.time_to_idle == old(self).time_to_idle,
                    self.live_span == old(self).live_span,
                    self.idle_span == old(self).idle_span,
                    self.valid_after == old(self).valid_after,
                    self.invalidator_enabled == old(self).invalidator_enabled,
                    self.next_predicate_id == old(self).next_predicate_id,
                    self.opportunistic == old(self).opportunistic,
                    self.sweeps.len() <= old(self).sweeps.len(),
                    self.sweeps[i as int].cursor == cursor,
                    self.sweeps[i as int].limit == limit,
                    self.sweeps[i as int].id == id,
                decreases end - s,
            {
                let matched: bool = match self.table.peek(s) {
                    Some(e) => e.invalidated,
                    None => false,
                };
                if matched {
                    proof {
                        self.table.lemma_wf();
                        assert(self.rules() == old(self).rules());
                    }
                    self.drop_slot(s, Ghost(None));
                }
                s = s + 1;
            }
            if end >= limit {
                self.sweeps.remove(i);
            } else {
                self.sweeps.set(i, Sweep { id, cursor: end, limit });
                i = i + 1;
            }
            proof {
                assert(end == crate::model::batch_end(started.sweeps[i0 as int]));
                rounds = (rounds - 1) as nat;
            }
        }
    }

    /// The first part of a pass of the housekeeper: it replays the
    /// waiting reads and then the waiting writes, drops what can no longer
    /// be seen at `now` from the front of the queues, and evicts entries
    /// until the cache is within its capacity.
    fn settle_accounts(&mut self, now: u64)
        requires
            old(self).wf(),
        ensures
            final(self).wf(),
            final(self).inner() == old(self).inner().reads_replayed(
                old(self).reads@,
            ).writes_replayed(old(self).writes@).expired_from(0, now).enforced(),
            housekept(
                old(self)@,
                final(self)@,
                old(self).rules(),
                now,
                old(self).max_capacity as nat,
            ),
            final(self).live() <= final(self).max_capacity || final(self).policy@.population()
                == 0,
            final(self).reads@.len() == 0,
            final(self).writes@.len() == 0,
            final(self).max_capacity == old(self).max_capacity,
            final(self).time_to_live == old(self).time_to_live,
            final(self).time_to_idle == old(self).time_to_idle,
            final(self).live_span == old(self).live_span,
            final(self).idle_span == old(self).idle_span,
            final(self).valid_after == old(self).valid_after,
            final(self).invalidator_enabled == old(self).invalidator_enabled,
            final(self).next_predicate_id == old(self).next_predicate_id,
            final(self).opportunistic == old(self).opportunistic,
            final(self).sweeps == old(self).sweeps,
            final(self).table.slots().len() == old(self).table.slots().len(),
    {
        let ghost capacity = self.max_capacity as nat;
        let ghost rules = self.rules();
        proof {
            old(self).lemma_live();
        }
        self.drain_reads();
        self.drain_writes(Ghost(now));
        let ghost drained = self@;
        proof {
            self.lemma_live();
        }
        self.expire(now);
        let ghost lapsed = self@;
        proof {
            lemma_housekept_reaped(drained, lapsed, rules, now, capacity);
            lemma_housekept_then(old(self)@, drained, lapsed, rules, now, capacity);
        }
        self.enforce_capacity(Ghost(now));
        proof {
            lemma_housekept_then(old(self)@, lapsed, self@, rules, now, capacity);
        }
    }

    /// One pass of the housekeeper.
    ///
    /// It replays the waiting reads and then the waiting writes, drops
    /// what can no longer be seen at `now` from the front of the queues,
    /// evicts entries until the cache is within its capacity, and reaps a
    /// batch of the entries that predicates have matched.
    fn tick(&mut self, now: u64)
        requires
            old(self).wf(),
        ensures
            final(self).wf(),
            final(self).model() == old(self).model().ticked(now),
            shrunk(old(self)@, final(self)@),
            final(self)@.dom().finite(),
            final(self)@.dom().len() <= final(self).max_capacity,
            housekept(
                old(self)@,
                final(self)@,
                old(self).rules(),
                now,
                old(self).max_capacity as nat,
            ),
            final(self).reads@.len() == 0,
            final(self).writes@.len() == 0,
            final(self).max_capacity == old(self).max_capacity,
            final(self).time_to_live == old(self).time_to_live,
            final(self).time_to_idle == old(self).time_to_idle,
            final(self).live_span == old(self).live_span,
            final(self).idle_span == old(self).idle_span,
            final(self).valid_after == old(self).valid_after,
            final(self).invalidator_enabled == old(self).invalidator_enabled,
            final(self).next_predicate_id == old(self).next_predicate_id,
            final(self).opportunistic == old(self).opportunistic,
            final(self).sweeps.len() <= old(self).sweeps.len(),
            old(self).table.slots().len() <= INVALIDATION_BATCH ==> final(self).sweeps.len() == 0,
            final(self).table.slots().len() == old(self).table.slots().len(),
    {
        let ghost capacity = self.max_capacity as nat;
        let ghost rules = self.rules();
        self.settle_accounts(now);
        let ghost bounded = self@;
        let ghost mid = self.model();
        proof {
            self.lemma_live();
            assert(self.reads@ =~= Seq::<Op>::empty());
            assert(self.writes@ =~= Seq::<Op>::empty());
            assert(mid == (EngineView {
                inner: mid.inner,
                reads: Seq::<Op>::empty(),
                writes: Seq::<Op>::empty(),
                ..old(self).model()
            }));
        }
        self.sweep(now);
        proof {
            lemma_housekept_reaped(bounded, self@, rules, now, capacity);
            lemma_housekept_then(old(self)@, bounded, self@, rules, now, capacity);
            self.lemma_quiescent();
            self.lemma_live();
        }
    }

    /// The stored rules, as a value.
    fn current_rules(&self) -> (r: Rules)
        ensures
            r == self.rules(),
    {
        Rules {
            time_to_live: self.live_span,
            time_to_idle: self.idle_span,
            valid_after: self.valid_after,
        }
    }

    /// Runs the housekeeper if enough notes are waiting.
    fn housekeep_if_due(&mut self, now: u64)
        requires
            old(self).wf(),
        ensures
            final(self).wf(),
            final(self).slot_count() == old(self).slot_count(),
            final(self).model() == old(self).model().relieved(now),
            shrunk(old(self)@, final(self)@),
            housekept(old(self)@, final(self)@, old(self).rules(), now, old(self).capacity()),
            !old(self).housekeeping_due() ==> *final(self) == *old(self),
            final(self).reads.capacity() == BUFFER_CAPACITY,
            final(self).reads@.len() <= old(self).reads@.len(),
            final(self).writes@.len() <= old(self).writes@.len(),
            final(self).max_capacity == old(self).max_capacity,
            final(self).time_to_live == old(self).time_to_live,
            final(self).time_to_idle == old(self).time_to_idle,
            final(self).live_span == old(self).live_span,
            final(self).idle_span == old(self).idle_span,
            final(self).valid_after == old(self).valid_after,
            final(self).invalidator_enabled == old(self).invalidator_enabled,
            final(self).next_predicate_id == old(self).next_predicate_id,
            final(self).opportunistic == old(self).opportunistic,
            final(self).sweeps.len() <= old(self).sweeps.len(),
    {
        if self.opportunistic && (self.reads.len() >= FLUSH_POINT || self.writes.len()
            >= FLUSH_POINT) {
            self.tick(now);
        } else {
            proof {
                lemma_housekept_same(self@, self.rules(), now, self.capacity());
            }
        }
    }

    /// Makes sure that the write buffer can take one more note: the
    /// housekeeper runs if the buffer is full, or if enough notes are
    /// waiting anyway.
    fn make_room(&mut self, now: u64)
        requires
            old(self).wf(),
        ensures
            final(self).wf(),
            final(self).slot_count() == old(self).slot_count(),
            final(self).model() == old(self).model().cleared(now),
            shrunk(old(self)@, final(self)@),
            housekept(old(self)@, final(self)@, old(self).rules(), now, old(self).capacity()),
            !old(self).write_pressure() ==> *final(self) == *old(self),
            final(self).writes@.len() < BUFFER_CAPACITY,
            final(self).max_capacity == old(self).max_capacity,
            final(self).time_to_live == old(self).time_to_live,
            final(self).time_to_idle == old(self).time_to_idle,
            final(self).live_span == old(self).live_span,
            final(self).idle_span == old(self).idle_span,
            final(self).valid_after == old(self).valid_after,
            final(self).invalidator_enabled == old(self).invalidator_enabled,
            final(self).next_predicate_id == old(self).next_predicate_id,
            final(self).opportunistic == old(self).opportunistic,
            final(self).sweeps.len() <= old(self).sweeps.len(),
    {
        let waiting: usize = self.writes.len();
        if waiting >= BUFFER_CAPACITY || (self.opportunistic && (self.reads.len() >= FLUSH_POINT
            || waiting >= FLUSH_POINT)) {
            self.tick(now);
        } else {
            proof {
                lemma_housekept_same(self@, self.rules(), now, self.capacity());
            }
        }
    }

    /// Runs the housekeeper until no note is waiting, `MAX_SYNC_REPEATS`
    /// times at most.
    ///
    /// Afterwards the cache holds no more entries than its capacity, and
    /// every entry it holds is one it held before, unchanged.
    pub fn sync_at(&mut self, now: u64)
        requires
            old(self).wf(),
        ensures
            final(self).wf(),
            final(self).slot_count() == old(self).slot_count(),
            final(self).model() == old(self).model().synced(now),
            shrunk(old(self)@, final(self)@),
            housekept(old(self)@, final(self)@, old(self).rules(), now, old(self).capacity()),
            final(self)@.dom().finite(),
            final(self)@.dom().len() <= final(self).capacity(),
            final(self).pending_reads() == 0,
            final(self).pending_writes() == 0,
            final(self).rules() == old(self).rules(),
            final(self).capacity() == old(self).capacity(),
            final(self).live_duration() == old(self).live_duration(),
            final(self).idle_duration() == old(self).idle_duration(),
            final(self).predicates_enabled() == old(self).predicates_enabled(),
            final(self).is_opportunistic() == old(self).is_opportunistic(),
            final(self).predicate_count() <= old(self).predicate_count(),
            old(self).slot_count() <= INVALIDATION_BATCH ==> final(self).predicate_count() == 0,
    {
        self.tick(now);
        let mut calls: usize = 1;
        while calls < MAX_SYNC_REPEATS && (self.reads.len() > 0 || self.writes.len() > 0)
            invariant
                self.wf(),
                self.slot_count() == old(self).slot_count(),
                self.model().synced_from(now, calls as nat) == old(self).model().synced(now),
                shrunk(old(self)@, self@),
                housekept(old(self)@, self@, old(self).rules(), now, old(self).capacity()),
                self@.dom().finite(),
                self@.dom().len() <= self.max_capacity,
                self.reads@.len() == 0,
                self.writes@.len() == 0,
                self.max_capacity == old(self).max_capacity,
                self.time_to_live == old(self).time_to_live,
                self.time_to_idle == old(self).time_to_idle,
                self.live_span == old(self).live_span,
                self.idle_span == old(self).idle_span,
                self.valid_after == old(self).valid_after,
                self.invalidator_enabled == old(self).invalidator_enabled,
                self.opportunistic == old(self).opportunistic,
                self.sweeps.len() <= old(self).sweeps.len(),
                old(self).table.slots().len() <= INVALIDATION_BATCH ==> self.sweeps.len() == 0,
                calls <= MAX_SYNC_REPEATS,
            decreases MAX_SYNC_REPEATS - calls,
        {
            let ghost before = self@;
            self.tick(now);
            calls = calls + 1;
            proof {
                assert(self.rules() == old(self).rules());
                lemma_housekept_then(
                    old(self)@,
                    before,
                    self@,
                    old(self).rules(),
                    now,
                    old(self).capacity(),
                );
            }
        }
    }

    /// The number of slots of the entry store, vacant ones included.
    pub closed spec fn slot_count(&self) -> nat {
        self.table.slots().len()
    }

    /// Stores `value` under `key` and `hash`, as written at `now`.
    ///
    /// The entry can be read at once.  Before the value is stored, the
    /// housekeeper runs if the write buffer is full or enough notes are
    /// waiting, which may remove other entries.
    pub fn insert_with_hash_at(&mut self, key: K, hash: u64, value: V, now: u64)
        requires
            old(self).wf(),
        ensures
            final(self).wf(),
            old(self).slot_count() <= final(self).slot_count() <= old(self).slot_count() + 1,
            final(self).model() == old(self).model().stored(key, hash, value, now),
            write_outcome(old(self)@, final(self)@, (key, hash), value, now),
            spared(old(self)@, final(self)@, old(self).rules(), now, old(self).capacity()),
            !old(self).write_pressure() ==> final(self)@ == old(self)@.insert(
                (key, hash),
                fresh(value, now),
            ),
            final(self).rules() == old(self).rules(),
            final(self).capacity() == old(self).capacity(),
            final(self).live_duration() == old(self).live_duration(),
            final(self).idle_duration() == old(self).idle_duration(),
            final(self).predicates_enabled() == old(self).predicates_enabled(),
            final(self).is_opportunistic() == old(self).is_opportunistic(),
            final(self).predicate_count() <= old(self).predicate_count(),
    {
        self.make_room(now);
        let ghost mid = *self;
        let ghost id = (key, hash);
        proof {
            self.table.lemma_wf();
            self.lemma_slot_of(key, hash);
        }
        match self.table.find(&key, hash) {
            Some(slot) => {
                let stamp: u64 = match self.table.peek(slot) {
                    Some(e) => e.stamp,
                    None => 0,
                };
                let ghost e0 = self.table.slots()[slot as int]->Occupied_0;
                let _previous = self.table.rewrite(slot, value, now);
                self.writes.post(
                    Op { kind: OpKind::Update, hash, slot, stamp },
                );
                proof {
                    let e1 = Entry {
                        value,
                        modified: now,
                        accessed: now,
                        invalidated: false,
                        ..e0
                    };
                    assert((e0.key, e0.hash) == id);
                    lemma_view_insert(mid.table.records(), id, e1);
                    let slots = self.table.slots();
                    assert forall|s: usize|
                        s < slots.len() && (#[trigger] slots[s as int]) is Occupied
                            && !self.policy@.linked(s) implies self.writes@.contains(
                        insert_note(s, slots[s as int]->Occupied_0),
                    ) by {
                        let note = insert_note(s, slots[s as int]->Occupied_0);
                        assert(mid.table.slots()[s as int] is Occupied);
                        assert(note == insert_note(s, mid.table.slots()[s as int]->Occupied_0));
                        assert(mid.writes@.contains(note));
                        let i = mid.writes@.index_of(note);
                        assert(mid.writes@[i] == note);
                        assert(self.writes@[i] == note);
                    }
                    assert forall|s: usize| #[trigger] self.policy@.linked(s) implies s
                        < slots.len() && !(slots[s as int] is Vacant) by {
                        assert(mid.policy@.linked(s));
                    }
                }
            },
            None => {
                let slot: usize = self.table.insert_new(key, hash, value, now);
                let stamp: u64 = match self.table.peek(slot) {
                    Some(e) => e.stamp,
                    None => 0,
                };
                self.writes.post(
                    Op { kind: OpKind::Insert, hash, slot, stamp },
                );
                proof {
                    let e1 = self.table.slots()[slot as int]->Occupied_0;
                    lemma_view_insert(mid.table.records(), id, e1);
                    let slots = self.table.slots();
                    assert(!mid.policy@.linked(slot));
                    assert forall|s: usize|
                        s < slots.len() && (#[trigger] slots[s as int]) is Occupied
                            && !self.policy@.linked(s) implies self.writes@.contains(
                        insert_note(s, slots[s as int]->Occupied_0),
                    ) by {
                        let note = insert_note(s, slots[s as int]->Occupied_0);
                        if s == slot {
                            assert(self.writes@[self.writes@.len() - 1] == note);
                        } else {
                            assert(mid.table.slots()[s as int] == slots[s as int]);
                            assert(mid.writes@.contains(note));
                            let i = mid.writes@.index_of(note);
                            assert(mid.writes@[i] == note);
                            assert(self.writes@[i] == note);
                        }
                    }
                    assert forall|s: usize| #[trigger] self.policy@.linked(s) implies s
                        < slots.len() && !(slots[s as int] is Vacant) by {
                        assert(mid.policy@.linked(s));
                        assert(s != slot);
                        assert(mid.table.slots()[s as int] == slots[s as int]);
                    }
                }
            },
        }
    }

    /// Removes the entry of `key` and `hash`, if there is one.
    ///
    /// Beforehand the housekeeper runs if the write buffer is full or
    /// enough notes are waiting, which may remove other entries.
    pub fn invalidate_with_hash_at(&mut self, key: &K, hash: u64, now: u64)
        requires
            old(self).wf(),
        ensures
            final(self).wf(),
            final(self).slot_count() == old(self).slot_count(),
            final(self).model() == old(self).model().removed(*key, hash, now),
            !final(self)@.contains_key((*key, hash)),
            shrunk(old(self)@, final(self)@),
            old(self)@.dom().len() <= old(self).capacity() ==> kept_visible(
                old(self)@.remove((*key, hash)),
                final(self)@,
                old(self).rules(),
                now,
            ),
            !old(self).write_pressure() ==> final(self)@ == old(self)@.remove((*key, hash)),
            final(self).rules() == old(self).rules(),
            final(self).capacity() == old(self).capacity(),
            final(self).live_duration() == old(self).live_duration(),
            final(self).idle_duration() == old(self).idle_duration(),
            final(self).predicates_enabled() == old(self).predicates_enabled(),
            final(self).is_opportunistic() == old(self).is_opportunistic(),
            final(self).predicate_count() <= old(self).predicate_count(),
    {
        self.make_room(now);
        let ghost mid = *self;
        let ghost id = (*key, hash);
        proof {
            self.table.lemma_wf();
            self.lemma_slot_of(*key, hash);
        }
        match self.table.find(key, hash) {
            Some(slot) => {
                proof {
                    lemma_without(self.table.roster(), slot);
                }
                let e = self.table.retire(slot);
                self.writes.post(
                    Op { kind: OpKind::Remove, hash, slot, stamp: e.stamp },
                );
                proof {
                    assert((e.key, e.hash) == id);
                    lemma_view_remove(mid.table.records(), id);
                    let slots = self.table.slots();
                    assert forall|s: usize|
                        s < slots.len() && (#[trigger] slots[s as int]) is Occupied
                            && !self.policy@.linked(s) implies self.writes@.contains(
                        insert_note(s, slots[s as int]->Occupied_0),
                    ) by {
                        let note = insert_note(s, slots[s as int]->Occupied_0);
                        assert(s != slot);
                        assert(mid.table.slots()[s as int] == slots[s as int]);
                        assert(mid.writes@.contains(note));
                        let i = mid.writes@.index_of(note);
                        assert(mid.writes@[i] == note);
                        assert(self.writes@[i] == note);
                    }
                    assert forall|s: usize| #[trigger] self.policy@.linked(s) implies s
                        < slots.len() && !(slots[s as int] is Vacant) by {
                        assert(mid.policy@.linked(s));
                    }
                }
            },
            None => {
                proof {
                    assert(self@ =~= self@.remove(id));
                }
            },
        }
    }

    /// Invalidates every entry that was written before `now`.
    ///
    /// The entries stay in the cache until the housekeeper drops them, but
    /// can no longer be seen.  An earlier invalidation that reached
    /// further stays in force.
    pub fn invalidate_all_at(&mut self, now: u64)
        requires
            old(self).wf(),
        ensures
            final(self).wf(),
            final(self).slot_count() == old(self).slot_count(),
            final(self).model() == old(self).model().all_invalidated(now),
            final(self)@ == old(self)@,
            final(self).rules() == (Rules {
                valid_after: Some(
                    match old(self).rules().valid_after {
                        Some(t) => if t > now {
                            t
                        } else {
                            now
                        },
                        None => now,
                    },
                ),
                ..old(self).rules()
            }),
            final(self).capacity() == old(self).capacity(),
            final(self).live_duration() == old(self).live_duration(),
            final(self).idle_duration() == old(self).idle_duration(),
            final(self).predicates_enabled() == old(self).predicates_enabled(),
            final(self).is_opportunistic() == old(self).is_opportunistic(),
            final(self).predicate_count() == old(self).predicate_count(),
            final(self).pending_reads() == old(self).pending_reads(),
            final(self).pending_writes() == old(self).pending_writes(),
    {
        let t: u64 = match self.valid_after {
            Some(t) => if t > now {
                t
            } else {
                now
            },
            None => now,
        };
        self.valid_after = Some(t);
    }

    /// A change of one entry that keeps its hash and stamp keeps the
    /// store, the policy and the buffers in agreement.
    proof fn lemma_entry_changed(before: Self, after: Self, slot: usize, extra: Option<Op>)
        requires
            before.inv(extra),
            after.table.wf(),
            after.policy == before.policy,
            after.same_setup(&before),
            slot < before.table.slots().len(),
            before.table.slots()[slot as int] is Occupied,
            after.table.slots()[slot as int] is Occupied,
            after.table.slots() == before.table.slots().update(
                slot as int,
                after.table.slots()[slot as int],
            ),
            after.table.slots()[slot as int]->Occupied_0.hash
                == before.table.slots()[slot as int]->Occupied_0.hash,
            after.table.slots()[slot as int]->Occupied_0.stamp
                == before.table.slots()[slot as int]->Occupied_0.stamp,
        ensures
            after.inv(extra),
    {
        let slots = after.table.slots();
        assert forall|s: usize|
            s < slots.len() && (#[trigger] slots[s as int]) is Occupied && !after.policy@.linked(
                s,
            ) implies after.writes@.contains(insert_note(s, slots[s as int]->Occupied_0)) || extra
            == Some(insert_note(s, slots[s as int]->Occupied_0)) by {
            assert(before.table.slots()[s as int] is Occupied);
            assert(insert_note(s, slots[s as int]->Occupied_0) == insert_note(
                s,
                before.table.slots()[s as int]->Occupied_0,
            ));
        }
        assert forall|s: usize| #[trigger] after.policy@.linked(s) implies s < slots.len() && !(
        slots[s as int] is Vacant) by {
            assert(before.policy@.linked(s));
        }
    }

    /// Registers `predicate` at `now`, if the cache supports predicates.
    ///
    /// The predicate is applied at once to every entry that was written
    /// before `now`.  The entries it holds of are marked: they can no
    /// longer be seen, and the housekeeper drops them batch by batch.  The
    /// registration lasts until the housekeeper has visited every slot
    /// that was in use when the predicate was registered.
    pub fn invalidate_entries_if_at<F: Fn(&K, &V) -> bool>(
        &mut self,
        predicate: &F,
        now: u64,
    ) -> (r: Result<PredicateId, PredicateError>)
        requires
            old(self).wf(),
            forall|k: K, v: V| call_requires(*predicate, (&k, &v)),
        ensures
            final(self).wf(),
            final(self).slot_count() == old(self).slot_count(),
            old(self).model().registered(final(self).model(), *predicate, now, r),
            match r {
                Ok(_) => old(self).predicates_enabled() && marked(
                    old(self)@,
                    final(self)@,
                    *predicate,
                    now,
                ) && final(self).predicate_count() == old(self).predicate_count() + 1,
                Err(e) => !old(self).predicates_enabled() && e
                    == PredicateError::PredicatesDisabled && final(self)@ == old(self)@
                    && final(self).predicate_count() == old(self).predicate_count(),
            },
            final(self).rules() == old(self).rules(),
            final(self).capacity() == old(self).capacity(),
            final(self).live_duration() == old(self).live_duration(),
            final(self).idle_duration() == old(self).idle_duration(),
            final(self).predicates_enabled() == old(self).predicates_enabled(),
            final(self).is_opportunistic() == old(self).is_opportunistic(),
            final(self).pending_reads() == old(self).pending_reads(),
            final(self).pending_writes() == old(self).pending_writes(),
    {
        if !self.invalidator_enabled {
            return Err(PredicateError::PredicatesDisabled);
        }
        let n: usize = self.table.slot_count();
        let ghost slots0 = self.table.slots();
        let mut s: usize = 0;
        while s < n
            invariant
                s <= n,
                n == slots0.len(),
                slots0 == old(self).table.slots(),
                self.inv(None),
                self.same_setup(old(self)),
                self.policy == old(self).policy,
                self.table.slots().len() == n,
                self.table.index() == old(self).table.index(),
                self.table.free() == old(self).table.free(),
                self.table.roster() == old(self).table.roster(),
                self.table.next_stamp() == old(self).table.next_stamp(),
                forall|k: K, v: V| call_requires(*predicate, (&k, &v)),
                forall|t: int|
                    0 <= t < n ==> match #[trigger] slots0[t] {
                        Slot::Occupied(e0) => {
                            &&& self.table.slots()[t] is Occupied
                            &&& self.table.slots()[t]->Occupied_0 == Entry {
                                invalidated: self.table.slots()[t]->Occupied_0.invalidated,
                                ..e0
                            }
                            &&& e0.invalidated ==> self.table.slots()[t]->Occupied_0.invalidated
                            &&& (t >= s || e0.modified >= now)
                                ==> self.table.slots()[t]->Occupied_0.invalidated
                                == e0.invalidated
                            &&& t < s && !e0.invalidated && e0.modified < now ==> call_ensures(
                                *predicate,
                                (&e0.key, &e0.value),
                                self.table.slots()[t]->Occupied_0.invalidated,
                            )
                        },
                        _ => self.table.slots()[t] == slots0[t],
                    },
            decreases n - s,
        {
            let hit: bool = match self.table.peek(s) {
                Some(e) => {
                    if !e.invalidated && e.modified < now {
                        predicate(&e.key, &e.value)
                    } else {
                        false
                    }
                },
                None => false,
            };
            if hit {
                let ghost before = *self;
                self.table.mark_invalidated(s);
                proof {
                    Self::lemma_entry_changed(before, *self, s, None);
                }
            }
            s = s + 1;
        }
        let id: u64 = self.next_predicate_id;
        self.next_predicate_id = self.next_predicate_id.wrapping_add(1);
        self.sweeps.push(Sweep { id, cursor: 0, limit: n });
        proof {
            let before = old(self)@;
            let after = self@;
            old(self).table.lemma_wf();
            self.table.lemma_wf();
            assert(after.dom() =~= before.dom());
            assert forall|x: (K, u64)| #[trigger] before.contains_key(x) implies {
                let a = before[x];
                let b = after[x];
                &&& b == Record { invalidated: b.invalidated, ..a }
                &&& a.invalidated ==> b.invalidated
                &&& a.modified >= now ==> b.invalidated == a.invalidated
                &&& !a.invalidated && a.modified < now ==> call_ensures(
                    *predicate,
                    (&x.0, &a.value),
                    b.invalidated,
                )
            } by {
                let t = old(self).table.index()[x];
                assert(slots0[t as int] is Occupied);
                assert(slots0[t as int]->Occupied_0.key == x.0);
            }
            assert forall|i: int| 0 <= i < self.sweeps.len() implies (
            #[trigger] self.sweeps[i]).cursor <= self.sweeps[i].limit
                <= self.table.slots().len() by {
                if i < old(self).sweeps.len() {
                    assert(self.sweeps[i] == old(self).sweeps[i]);
                }
            }
        }
        Ok(id)
    }

    /// The largest number of entries the cache holds at rest.
    pub fn max_capacity(&self) -> (n: usize)
        ensures
            n == self.capacity(),
    {
        self.max_capacity
    }

    /// How long an entry lives after it was written.
    pub fn time_to_live(&self) -> (d: Option<Duration>)
        ensures
            d == self.live_duration(),
    {
        self.time_to_live
    }

    /// How long an entry lives after it was last accessed.
    pub fn time_to_idle(&self) -> (d: Option<Duration>)
        ensures
            d == self.idle_duration(),
    {
        self.time_to_idle
    }

    /// The number of entries in the cache, whether or not they can still
    /// be seen.
    pub fn table_size(&self) -> (n: usize)
        requires
            self.wf(),
        ensures
            n == self@.dom().len(),
    {
        proof {
            assert(self@.dom() =~= self.table.index().dom());
        }
        self.table.len()
    }

    /// The number of predicates whose matches have not all been reaped.
    pub fn invalidation_predicate_count(&self) -> (n: usize)
        ensures
            n == self.predicate_count(),
    {
        self.sweeps.len()
    }

    /// Stops operations from running the housekeeper when the buffers
    /// fill up, so that it runs only in `sync` and when the write buffer
    /// is full.
    pub fn reconfigure_for_testing(&mut self)
        requires
            old(self).wf(),
        ensures
            final(self).wf(),
            final(self).slot_count() == old(self).slot_count(),
            final(self).model() == old(self).model().muted(),
            final(self)@ == old(self)@,
            !final(self).is_opportunistic(),
            final(self).rules() == old(self).rules(),
            final(self).capacity() == old(self).capacity(),
            final(self).live_duration() == old(self).live_duration(),
            final(self).idle_duration() == old(self).idle_duration(),
            final(self).predicates_enabled() == old(self).predicates_enabled(),
            final(self).predicate_count() == old(self).predicate_count(),
            final(self).pending_reads() == old(self).pending_reads(),
            final(self).pending_writes() == old(self).pending_writes(),
    {
        self.opportunistic = false;
    }
}

impl<K: PartialEq, V: Clone> BaseCache<K, V> {
    /// Reads the value stored under `key` and `hash` at `now`.
    ///
    /// Beforehand the housekeeper runs if enough notes are waiting, which
    /// may remove entries.  An entry that has expired at `now`, or was
    /// invalidated, is not returned; it stays in the cache until the
    /// housekeeper drops it.
    pub fn get_with_hash_at(&mut self, key: &K, hash: u64, now: u64) -> (r: Option<V>)
        requires
            old(self).wf(),
        ensures
            final(self).wf(),
            final(self).slot_count() == old(self).slot_count(),
            old(self).model().fetched(final(self).model(), *key, hash, now, r),
            read_outcome(old(self)@, final(self)@, old(self).rules(), (*key, hash), now, r),
            !old(self).housekeeping_due() ==> final(self)@.dom() == old(self)@.dom(),
            spared(old(self)@, final(self)@, old(self).rules(), now, old(self).capacity()),
            final(self).rules() == old(self).rules(),
            final(self).capacity() == old(self).capacity(),
            final(self).live_duration() == old(self).live_duration(),
            final(self).idle_duration() == old(self).idle_duration(),
            final(self).predicates_enabled() == old(self).predicates_enabled(),
            final(self).is_opportunistic() == old(self).is_opportunistic(),
            final(self).predicate_count() <= old(self).predicate_count(),
            final(self).pending_writes() <= old(self).pending_writes(),
    {
        self.housekeep_if_due(now);
        let ghost mid = *self;
        let ghost id = (*key, hash);
        proof {
            self.table.lemma_wf();
            self.lemma_slot_of(*key, hash);
        }
        let rules = self.current_rules();
        match self.table.find(key, hash) {
            Some(slot) => {
                let (found, stamp): (Option<V>, u64) = match self.table.peek(slot) {
                    Some(e) => {
                        if e.invalidated || has_expired(e.modified, e.accessed, &rules, now) {
                            (None, e.stamp)
                        } else {
                            (Some(e.value.clone()), e.stamp)
                        }
                    },
                    None => (None, 0),
                };
                if found.is_some() {
                    let ghost e0 = self.table.slots()[slot as int]->Occupied_0;
                    self.table.touch(slot, now);
                    self.reads.offer(
                        Op { kind: OpKind::Read, hash, slot, stamp },
                    );
                    proof {
                        let e1 = Entry { accessed: now, ..e0 };
                        assert((e0.key, e0.hash) == id);
                        lemma_view_insert(mid.table.records(), id, e1);
                        let slots = self.table.slots();
                        assert forall|s: usize|
                            s < slots.len() && (#[trigger] slots[s as int]) is Occupied
                                && !self.policy@.linked(s) implies self.writes@.contains(
                            insert_note(s, slots[s as int]->Occupied_0),
                        ) by {
                            assert(mid.table.slots()[s as int] is Occupied);
                            assert(insert_note(s, slots[s as int]->Occupied_0) == insert_note(
                                s,
                                mid.table.slots()[s as int]->Occupied_0,
                            ));
                        }
                        assert forall|s: usize| #[trigger] self.policy@.linked(s) implies s
                            < slots.len() && !(slots[s as int] is Vacant) by {
                            assert(mid.policy@.linked(s));
                        }
                        assert(self@.dom() =~= mid@.dom());
                        assert(mid@.contains_key(id));
                        assert(mid@[id] == record_of(e0));
                        assert(old(self)@[id] == mid@[id]);
                        assert(self@[id] == touched(mid@[id], now));
                        assert(cloned(e0.value, found->0));
                    }
                } else {
                    proof {
                        let e0 = self.table.slots()[slot as int]->Occupied_0;
                        assert((e0.key, e0.hash) == id);
                        assert(mid@.contains_key(id));
                        assert(mid@[id] == record_of(e0));
                        assert(old(self)@[id] == mid@[id]);
                        assert(!visible(mid@[id], rules, now));
                    }
                }
                found
            },
            None => {
                proof {
                    assert(!self@.contains_key(id));
                }
                None
            },
        }
    }
}

/// One of the five queues of a policy, by number.
pub open spec fn queue_of(v: PolicyView, queue: u8) -> Seq<usize> {
    if queue == 0 {
        v.write_order
    } else if queue == 1 {
        v.idle_order
    } else if queue == 2 {
        v.window
    } else if queue == 3 {
        v.probation
    } else {
        v.protected
    }
}

} // verus!
