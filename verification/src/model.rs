//! What the cache engine does, step by step, as functions on its state.
//!
//! The state of the engine is the slots of its store, the queues and the
//! sketch of its policy, and the notes that wait in its buffers.  Every
//! operation of the engine takes the state to the state that the
//! functions here give.

use vstd::prelude::*;
use crate::base::record_of;
use crate::base::visible;
use crate::base::Record;
use crate::base::PredicateError;
use crate::base::Rules;
use crate::base::BUFFER_CAPACITY;
use crate::base::EVICTION_BATCH;
use crate::base::FLUSH_POINT;
use crate::base::INVALIDATION_BATCH;
use crate::base::MAX_SYNC_REPEATS;
use crate::buffer::Op;
use crate::buffer::OpKind;
use crate::policy::estimate_of;
use crate::policy::loser_of;
use crate::policy::protected_share;
use crate::policy::window_share;
use crate::policy::PolicyView;
use crate::sketch::recorded;
use crate::sketch::SketchView;
use crate::table::next_slot;
use crate::table::placed;
use crate::table::Entry;
use crate::table::Slot;

verus! {

/// The scan that reaps the entries a predicate has matched: the number of
/// the predicate, the slot the scan has reached, and the slot before
/// which it ends.
pub struct Sweep {
    pub id: u64,
    pub cursor: usize,
    pub limit: usize,
}

/// The store and the policy of an engine.
pub struct CoreView<K, V> {
    /// All slots, by number.
    pub slots: Seq<Slot<K, V>>,
    /// The vacant slots that wait to be used again, the next one last.
    pub free: Seq<usize>,
    /// The number of occupied slots.
    pub size: nat,
    /// The stamp that the next new entry receives.
    pub next_stamp: u64,
    /// The recency and expiration queues.
    pub queues: PolicyView,
    /// The popularity sketch.
    pub sketch: SketchView,
    /// The times that decide whether an entry may still be seen.
    pub rules: Rules,
    /// The largest number of entries the cache holds at rest.
    pub capacity: nat,
}

/// The state of an engine.
pub struct EngineView<K, V> {
    pub inner: CoreView<K, V>,
    /// The notes of reads that wait to be replayed, oldest first.
    pub reads: Seq<Op>,
    /// The notes of writes that wait to be replayed, oldest first.
    pub writes: Seq<Op>,
    /// The scans of the registered predicates.
    pub sweeps: Seq<Sweep>,
    /// The number that the next predicate is registered under.
    pub next_predicate_id: u64,
    /// Whether operations run the housekeeper when the buffers fill up.
    pub opportunistic: bool,
    /// Whether predicates may be registered.
    pub predicates_enabled: bool,
}

impl<K, V> CoreView<K, V> {
    /// Whether `slot` holds an entry.
    pub open spec fn occupied(self, slot: usize) -> bool {
        slot < self.slots.len() && self.slots[slot as int] is Occupied
    }

    /// The entry in `slot`.
    pub open spec fn entry(self, slot: usize) -> Entry<K, V> {
        self.slots[slot as int]->Occupied_0
    }

    /// The hash of the entry in `slot`, if there is an entry.
    pub open spec fn hash_in(self, slot: usize) -> Option<u64> {
        if self.occupied(slot) {
            Some(self.entry(slot).hash)
        } else {
            None
        }
    }

    /// Whether `slot` still holds the entry that a note with `stamp` and
    /// `hash` is about.
    pub open spec fn holds(self, slot: usize, stamp: u64, hash: u64) -> bool {
        self.occupied(slot) && self.entry(slot).stamp == stamp && self.entry(slot).hash == hash
    }

    /// The slot that holds the entry of `key` and `hash`, if there is one.
    pub open spec fn slot_of(self, key: K, hash: u64) -> Option<usize> {
        if exists|s: usize| self.keeps(s, key, hash) {
            Some(choose|s: usize| self.keeps(s, key, hash))
        } else {
            None
        }
    }

    /// Whether `slot` holds the entry of `key` and `hash`.
    pub open spec fn keeps(self, slot: usize, key: K, hash: u64) -> bool {
        self.occupied(slot) && self.entry(slot).key == key && self.entry(slot).hash == hash
    }

    /// What the store holds for each key and hash that has an entry.
    pub open spec fn entries(self) -> Map<(K, u64), Record<V>> {
        Map::new(
            |id: (K, u64)| self.slot_of(id.0, id.1) is Some,
            |id: (K, u64)| record_of(self.entry(self.slot_of(id.0, id.1)->0)),
        )
    }

    /// Whether what stands in `slot` can no longer be seen at `now`.
    pub open spec fn dead(self, slot: usize, now: u64) -> bool {
        !(self.occupied(slot) && visible(record_of(self.entry(slot)), self.rules, now))
    }

    /// The state after `slot` left every queue and, if it was in use,
    /// became vacant.
    pub open spec fn dropped(self, slot: usize) -> Self {
        let queues = self.queues.left(slot);
        if self.occupied(slot) {
            CoreView {
                queues,
                slots: self.slots.update(slot as int, Slot::Vacant),
                free: self.free.push(slot),
                size: (self.size - 1) as nat,
                ..self
            }
        } else if slot < self.slots.len() && self.slots[slot as int] is Retired {
            CoreView {
                queues,
                slots: self.slots.update(slot as int, Slot::Vacant),
                free: self.free.push(slot),
                ..self
            }
        } else {
            CoreView { queues, ..self }
        }
    }

    /// The state after the note `op` of a read was replayed: the hash
    /// gains popularity, and the entry, if it is still the one that was
    /// read and stands in the queues, moves to their recent end.
    pub open spec fn read_replayed(self, op: Op) -> Self {
        let sketch = recorded(self.sketch, op.hash);
        if self.holds(op.slot, op.stamp, op.hash) && self.queues.linked(op.slot) {
            CoreView {
                sketch,
                queues: self.queues.read(op.slot, protected_share(self.capacity)),
                ..self
            }
        } else {
            CoreView { sketch, ..self }
        }
    }

    /// The state after the candidate `candidate` left the window.
    ///
    /// It moves to the back of probation and counts as admitted.  If the
    /// cache then holds more entries than its capacity, the front entry of
    /// probation is the victim, and the loser of the two is dropped.
    pub open spec fn settled(self, candidate: usize) -> Self {
        let queues = self.queues.admitted(candidate);
        let slots = if self.occupied(candidate) {
            self.slots.update(
                candidate as int,
                Slot::Occupied(Entry { admitted: true, ..self.entry(candidate) }),
            )
        } else {
            self.slots
        };
        let moved = CoreView { queues, slots, ..self };
        if self.size > self.capacity {
            let victim = if queues.probation.len() > 0 {
                queues.probation[0]
            } else {
                candidate
            };
            let loser = loser_of(
                candidate,
                estimate_of(self.sketch.counters, self.hash_in(candidate)),
                victim,
                estimate_of(self.sketch.counters, self.hash_in(victim)),
            );
            moved.dropped(loser)
        } else {
            moved
        }
    }

    /// The state after up to `rounds` candidates left the window, one by
    /// one from its front, for as long as the window held more entries
    /// than it may.
    pub open spec fn rebalanced_in(self, rounds: nat) -> Self
        decreases rounds,
    {
        if rounds > 0 && self.queues.window.len() > window_share(self.capacity) {
            self.settled(self.queues.window[0]).rebalanced_in((rounds - 1) as nat)
        } else {
            self
        }
    }

    /// The state after the window was brought down to what it may hold.
    pub open spec fn rebalanced(self) -> Self {
        self.rebalanced_in(self.queues.window.len())
    }

    /// The state after the note `op` of an insertion was replayed: the
    /// hash gains popularity, and the entry, if it is still the one that
    /// was inserted and stands in no queue, joins the window, which is
    /// then brought down to what it may hold.
    pub open spec fn insert_replayed(self, op: Op) -> Self {
        let sketch = recorded(self.sketch, op.hash);
        if self.holds(op.slot, op.stamp, op.hash) && !self.queues.linked(op.slot) {
            (CoreView {
                sketch,
                queues: self.queues.joined(
                    op.slot,
                    self.rules.time_to_live is Some,
                    self.rules.time_to_idle is Some,
                ),
                ..self
            }).rebalanced()
        } else {
            (CoreView { sketch, ..self }).rebalanced()
        }
    }

    /// The state after the note `op` of a rewrite was replayed: the hash
    /// gains popularity, and the entry, if it is still the one that was
    /// rewritten and stands in the queues, moves to their recent end.
    pub open spec fn update_replayed(self, op: Op) -> Self {
        let sketch = recorded(self.sketch, op.hash);
        if self.holds(op.slot, op.stamp, op.hash) && self.queues.linked(op.slot) {
            CoreView {
                sketch,
                queues: self.queues.written(op.slot, protected_share(self.capacity)),
                ..self
            }
        } else {
            CoreView { sketch, ..self }
        }
    }

    /// The state after the note `op` of an invalidation was replayed: the
    /// slot, if it is still retired from that entry, is dropped.
    pub open spec fn remove_replayed(self, op: Op) -> Self {
        if op.slot < self.slots.len() && self.slots[op.slot as int] == Slot::<K, V>::Retired(
            op.stamp,
        ) {
            self.dropped(op.slot)
        } else {
            self
        }
    }

    /// The state after a note from the write buffer was replayed.
    pub open spec fn write_replayed(self, op: Op) -> Self {
        match op.kind {
            OpKind::Insert => self.insert_replayed(op),
            OpKind::Update => self.update_replayed(op),
            OpKind::Remove => self.remove_replayed(op),
            OpKind::Read => self.read_replayed(op),
        }
    }

    /// The state after the notes `notes` of reads were replayed, oldest
    /// first.
    pub open spec fn reads_replayed(self, notes: Seq<Op>) -> Self
        decreases notes.len(),
    {
        if notes.len() == 0 {
            self
        } else {
            self.read_replayed(notes[0]).reads_replayed(notes.drop_first())
        }
    }

    /// The state after the notes `notes` of writes were replayed, oldest
    /// first.
    pub open spec fn writes_replayed(self, notes: Seq<Op>) -> Self
        decreases notes.len(),
    {
        if notes.len() == 0 {
            self
        } else {
            self.write_replayed(notes[0]).writes_replayed(notes.drop_first())
        }
    }

    /// The front of one of the five queues, by number.
    pub open spec fn front_of(self, queue: u8) -> Option<usize> {
        let q = crate::base::queue_of(self.queues, queue);
        if q.len() == 0 {
            None
        } else {
            Some(q[0])
        }
    }

    /// The state after up to `budget` entries were dropped from the front
    /// of the queue `queue`, for as long as its front could no longer be
    /// seen at `now`.
    pub open spec fn queue_expired(self, queue: u8, now: u64, budget: nat) -> Self
        decreases budget,
    {
        if budget == 0 {
            self
        } else {
            match self.front_of(queue) {
                Some(slot) => if self.dead(slot, now) {
                    self.dropped(slot).queue_expired(queue, now, (budget - 1) as nat)
                } else {
                    self
                },
                None => self,
            }
        }
    }

    /// The state after the queues from `queue` on were relieved, one after
    /// the other, of what could no longer be seen at `now`.
    pub open spec fn expired_from(self, queue: u8, now: u64) -> Self
        decreases 5 - queue,
    {
        if queue >= 5 {
            self
        } else {
            self.queue_expired(queue, now, EVICTION_BATCH as nat).expired_from(
                (queue + 1) as u8,
                now,
            )
        }
    }

    /// The entry that is evicted next from a cache over its capacity: the
    /// front of probation, else of the protected queue, else of the
    /// window.
    pub open spec fn next_victim(self) -> Option<usize> {
        if self.queues.probation.len() > 0 {
            Some(self.queues.probation[0])
        } else if self.queues.protected.len() > 0 {
            Some(self.queues.protected[0])
        } else if self.queues.window.len() > 0 {
            Some(self.queues.window[0])
        } else {
            None
        }
    }

    /// The state after up to `rounds` victims were dropped, for as long as
    /// the cache held more entries than its capacity and a victim was to
    /// be had.
    pub open spec fn enforced_in(self, rounds: nat) -> Self
        decreases rounds,
    {
        if rounds > 0 && self.size > self.capacity && self.queues.population() > 0 {
            match self.next_victim() {
                Some(slot) => self.dropped(slot).enforced_in((rounds - 1) as nat),
                None => self,
            }
        } else {
            self
        }
    }

    /// The state after the cache was brought down to its capacity.
    pub open spec fn enforced(self) -> Self {
        self.enforced_in(self.queues.population())
    }

    /// The state after the slots from `from` up to `end` were visited and
    /// those that held an entry matched by a predicate were dropped.
    pub open spec fn scanned(self, from: usize, end: usize) -> Self
        decreases end - from,
    {
        if from >= end {
            self
        } else {
            let visited = if self.occupied(from) && self.entry(from).invalidated {
                self.dropped(from)
            } else {
                self
            };
            visited.scanned((from + 1) as usize, end)
        }
    }
}

/// The state of an engine that was just built.
pub open spec fn initial<K, V>(
    capacity: nat,
    time_to_live: Option<u64>,
    time_to_idle: Option<u64>,
    predicates_enabled: bool,
) -> EngineView<K, V> {
    EngineView {
        inner: CoreView {
            slots: Seq::empty(),
            free: Seq::empty(),
            size: 0,
            next_stamp: 0,
            queues: crate::policy::unpopulated(),
            sketch: crate::sketch::blank(capacity),
            rules: Rules { time_to_live, time_to_idle, valid_after: None },
            capacity,
        },
        reads: Seq::empty(),
        writes: Seq::empty(),
        sweeps: Seq::empty(),
        next_predicate_id: 0,
        opportunistic: true,
        predicates_enabled,
    }
}

/// The slot at which the scan `sweep` ends in one pass: a batch further,
/// or at its limit.
pub open spec fn batch_end(sweep: Sweep) -> usize {
    if sweep.limit - sweep.cursor > INVALIDATION_BATCH {
        (sweep.cursor + INVALIDATION_BATCH) as usize
    } else {
        sweep.limit
    }
}

impl<K, V> EngineView<K, V> {
    /// The state after each of the scans from `i` on has visited a batch
    /// of slots, and those that reached their limit were forgotten.
    pub open spec fn swept_from(self, i: int, rounds: nat) -> Self
        decreases rounds,
    {
        if rounds == 0 || i < 0 || i >= self.sweeps.len() {
            self
        } else {
            let sweep = self.sweeps[i];
            let end = batch_end(sweep);
            let inner = self.inner.scanned(sweep.cursor, end);
            if end >= sweep.limit {
                (EngineView { inner, sweeps: self.sweeps.remove(i), ..self }).swept_from(
                    i,
                    (rounds - 1) as nat,
                )
            } else {
                (EngineView {
                    inner,
                    sweeps: self.sweeps.update(i, Sweep { cursor: end, ..sweep }),
                    ..self
                }).swept_from(i + 1, (rounds - 1) as nat)
            }
        }
    }

    /// The state after one pass of the housekeeper at `now`.
    ///
    /// The waiting reads are replayed, then the waiting writes.  Then what
    /// can no longer be seen is dropped from the front of the queues, the
    /// cache is brought down to its capacity, and every registered scan
    /// visits a batch of slots.
    pub open spec fn ticked(self, now: u64) -> Self {
        let inner = self.inner.reads_replayed(self.reads).writes_replayed(self.writes).expired_from(
            0,
            now,
        ).enforced();
        (EngineView {
            inner,
            reads: Seq::<Op>::empty(),
            writes: Seq::<Op>::empty(),
            ..self
        }).swept_from(0, self.sweeps.len())
    }

    /// Whether a pass of the housekeeper is due before the next
    /// operation.
    pub open spec fn due(self) -> bool {
        self.opportunistic && (self.reads.len() >= FLUSH_POINT || self.writes.len() >= FLUSH_POINT)
    }

    /// Whether a pass of the housekeeper is due before the next write.
    pub open spec fn pressed(self) -> bool {
        self.due() || self.writes.len() >= BUFFER_CAPACITY
    }

    /// The state after the housekeeper ran if it was due.
    pub open spec fn relieved(self, now: u64) -> Self {
        if self.due() {
            self.ticked(now)
        } else {
            self
        }
    }

    /// The state after the housekeeper ran if a write had to wait for it.
    pub open spec fn cleared(self, now: u64) -> Self {
        if self.pressed() {
            self.ticked(now)
        } else {
            self
        }
    }

    /// The state after `value` was stored under `key` and `hash` at `now`.
    ///
    /// The housekeeper runs first if the write has to wait for it.  Then
    /// an entry that is there is rewritten in its slot, and a note of the
    /// rewrite is left; a new entry takes the next slot, under the next
    /// stamp, and a note of the insertion is left.
    pub open spec fn stored(self, key: K, hash: u64, value: V, now: u64) -> Self {
        let m = self.cleared(now);
        let c = m.inner;
        match c.slot_of(key, hash) {
            Some(s) => {
                let e = c.entry(s);
                EngineView {
                    inner: CoreView {
                        slots: c.slots.update(
                            s as int,
                            Slot::Occupied(
                                Entry {
                                    value,
                                    modified: now,
                                    accessed: now,
                                    invalidated: false,
                                    ..e
                                },
                            ),
                        ),
                        ..c
                    },
                    writes: m.writes.push(
                        Op { kind: OpKind::Update, hash, slot: s, stamp: e.stamp },
                    ),
                    ..m
                }
            },
            None => {
                let s = next_slot(c.free, c.slots.len());
                EngineView {
                    inner: CoreView {
                        slots: placed(
                            c.slots,
                            s as int,
                            Slot::Occupied(
                                Entry {
                                    key,
                                    hash,
                                    value,
                                    stamp: c.next_stamp,
                                    modified: now,
                                    accessed: now,
                                    admitted: false,
                                    invalidated: false,
                                },
                            ),
                        ),
                        free: if c.free.len() > 0 {
                            c.free.drop_last()
                        } else {
                            c.free
                        },
                        size: c.size + 1,
                        next_stamp: c.next_stamp.wrapping_add(1),
                        ..c
                    },
                    writes: m.writes.push(
                        Op { kind: OpKind::Insert, hash, slot: s, stamp: c.next_stamp },
                    ),
                    ..m
                }
            },
        }
    }

    /// The state after the entry of `key` and `hash` was invalidated at
    /// `now`.
    ///
    /// The housekeeper runs first if the write has to wait for it.  Then
    /// the slot of the entry, if there is one, is retired, and a note of
    /// the invalidation is left.
    pub open spec fn removed(self, key: K, hash: u64, now: u64) -> Self {
        let m = self.cleared(now);
        let c = m.inner;
        match c.slot_of(key, hash) {
            Some(s) => EngineView {
                inner: CoreView {
                    slots: c.slots.update(s as int, Slot::Retired(c.entry(s).stamp)),
                    size: (c.size - 1) as nat,
                    ..c
                },
                writes: m.writes.push(
                    Op { kind: OpKind::Remove, hash, slot: s, stamp: c.entry(s).stamp },
                ),
                ..m
            },
            None => m,
        }
    }

    /// The state after every entry written before `now` was invalidated.
    pub open spec fn all_invalidated(self, now: u64) -> Self {
        EngineView {
            inner: CoreView {
                rules: Rules {
                    valid_after: Some(
                        match self.inner.rules.valid_after {
                            Some(t) => if t > now {
                                t
                            } else {
                                now
                            },
                            None => now,
                        },
                    ),
                    ..self.inner.rules
                },
                ..self.inner
            },
            ..self
        }
    }

    /// The state in which operations no longer run the housekeeper when
    /// the buffers fill up.
    pub open spec fn muted(self) -> Self {
        EngineView { opportunistic: false, ..self }
    }

    /// Whether a read of `key` and `hash` at `now` takes this state to
    /// `after` and returns `r`.
    ///
    /// The housekeeper runs first if it is due.  Then, if the entry is
    /// there and can be seen, a clone of its value is returned, the entry
    /// counts as accessed at `now`, and a note of the read is left unless
    /// the read buffer is full.  Else nothing is returned, and nothing
    /// changes.
    pub open spec fn fetched(self, after: Self, key: K, hash: u64, now: u64, r: Option<V>) -> bool where
        V: Clone,
     {
        let m = self.relieved(now);
        let c = m.inner;
        match c.slot_of(key, hash) {
            Some(s) => if visible(record_of(c.entry(s)), c.rules, now) {
                &&& r is Some
                &&& cloned(c.entry(s).value, r->0)
                &&& after == (EngineView {
                    inner: CoreView {
                        slots: c.slots.update(
                            s as int,
                            Slot::Occupied(Entry { accessed: now, ..c.entry(s) }),
                        ),
                        ..c
                    },
                    reads: if m.reads.len() < BUFFER_CAPACITY {
                        m.reads.push(
                            Op { kind: OpKind::Read, hash, slot: s, stamp: c.entry(s).stamp },
                        )
                    } else {
                        m.reads
                    },
                    ..m
                })
            } else {
                r is None && after == m
            },
            None => r is None && after == m,
        }
    }

    /// Whether the registration of `predicate` at `now` takes this state
    /// to `after` and returns `r`.
    ///
    /// Without support for predicates it fails and changes nothing.  With
    /// it, every entry that was written before `now` and is not marked yet
    /// is marked exactly if the predicate holds of its key and value, and
    /// a scan of all slots is registered under the next number.
    pub open spec fn registered<F: Fn(&K, &V) -> bool>(
        self,
        after: Self,
        predicate: F,
        now: u64,
        r: Result<u64, PredicateError>,
    ) -> bool {
        if !self.predicates_enabled {
            r == Err::<u64, PredicateError>(PredicateError::PredicatesDisabled) && after == self
        } else {
            &&& r == Ok::<u64, PredicateError>(self.next_predicate_id)
            &&& after == (EngineView {
                inner: CoreView { slots: after.inner.slots, ..self.inner },
                sweeps: self.sweeps.push(
                    Sweep {
                        id: self.next_predicate_id,
                        cursor: 0,
                        limit: self.inner.slots.len() as usize,
                    },
                ),
                next_predicate_id: self.next_predicate_id.wrapping_add(1),
                ..self
            })
            &&& after.inner.slots.len() == self.inner.slots.len()
            &&& forall|s: int|
                0 <= s < self.inner.slots.len() ==> match #[trigger] self.inner.slots[s] {
                    Slot::Occupied(e0) => {
                        &&& after.inner.slots[s] is Occupied
                        &&& after.inner.slots[s]->Occupied_0 == Entry {
                            invalidated: after.inner.slots[s]->Occupied_0.invalidated,
                            ..e0
                        }
                        &&& e0.invalidated ==> after.inner.slots[s]->Occupied_0.invalidated
                        &&& e0.modified >= now ==> after.inner.slots[s]->Occupied_0.invalidated
                            == e0.invalidated
                        &&& !e0.invalidated && e0.modified < now ==> call_ensures(
                            predicate,
                            (&e0.key, &e0.value),
                            after.inner.slots[s]->Occupied_0.invalidated,
                        )
                    },
                    _ => after.inner.slots[s] == self.inner.slots[s],
                }
        }
    }

    /// The state after `sync`: one pass of the housekeeper, and further
    /// passes for as long as notes are waiting, up to `MAX_SYNC_REPEATS`
    /// in all.
    pub open spec fn synced(self, now: u64) -> Self {
        self.ticked(now).synced_from(now, 1)
    }

    /// The state after the further passes of `sync`, when `calls` passes
    /// have been made.
    pub open spec fn synced_from(self, now: u64, calls: nat) -> Self
        decreases MAX_SYNC_REPEATS - calls,
    {
        if calls < MAX_SYNC_REPEATS && (self.reads.len() > 0 || self.writes.len() > 0) {
            self.ticked(now).synced_from(now, calls + 1)
        } else {
            self
        }
    }
}

} // verus!
