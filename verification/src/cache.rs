//! A cache that hashes its keys and reads the time by itself.
//!
//! Every operation hashes the key with the cache's hasher, reads the clock,
//! and hands both to the engine.  The times of an entry are the clock
//! readings of the operations that wrote and read it.

use vstd::prelude::*;
use std::collections::hash_map::RandomState;
use std::hash::BuildHasher;
use std::hash::Hash;
use std::sync::Arc;
use std::time::Duration;
use quanta::Clock;
use crate::base::fresh;
use crate::base::housekept;
use crate::base::kept_visible;
use crate::base::lemma_expiry_lasts;
use crate::base::marked;
use crate::base::read_outcome;
use crate::base::shrunk;
use crate::base::spared;
use crate::base::visible;
use crate::base::write_outcome;
use crate::base::BaseCache;
use crate::base::PredicateError;
use crate::base::PredicateId;
use crate::base::Record;
use crate::base::Rules;
use crate::base::INVALIDATION_BATCH;
use crate::hashing::hash_one;
use crate::hashing::random_state;
use crate::clock::clock_new;
use crate::clock::Timeline;
use crate::initializer::share_error;
use crate::initializer::Entered;
use crate::initializer::Rounds;
use crate::initializer::ValueInitializer;
use crate::model::EngineView;
use crate::table::keys_compare_by_value;

verus! {

/// An in-memory cache of bounded capacity.
///
/// The cache keeps the entries that are used often and recently, and
/// evicts others when it holds more than `max_capacity` entries.  Entries
/// may expire a fixed time after they were written or last accessed, and
/// can be invalidated one by one, all at once, or by a predicate.
#[verifier::reject_recursive_types(K)]
pub struct Cache<K, V, S = RandomState> {
    base: BaseCache<K, V>,
    build_hasher: S,
    timeline: Timeline,
}

impl<K: Hash + Eq, V, S> View for Cache<K, V, S> {
    type V = Map<(K, u64), Record<V>>;

    closed spec fn view(&self) -> Map<(K, u64), Record<V>> {
        self.base@
    }
}

/// No entry was written or read after `bound`, and the time before which
/// entries are invalid is not after `bound` either.
pub open spec fn dated<K, V>(entries: Map<(K, u64), Record<V>>, rules: Rules, bound: u64) -> bool {
    &&& forall|id: (K, u64)| #[trigger]
        entries.contains_key(id) ==> entries[id].modified <= bound && entries[id].accessed
            <= bound
    &&& rules.valid_after is Some ==> rules.valid_after->0 <= bound
}

/// What happened when a value was looked up or else computed and stored.
///
/// Either the value was found: then `v` is a clone of it, and the entry
/// counts as accessed at `now`.  Or it was computed: then a clone of `v`
/// was stored as written at `now`.
pub open spec fn found_or_stored<K, V: Clone>(
    before: Map<(K, u64), Record<V>>,
    after: Map<(K, u64), Record<V>>,
    rules: Rules,
    id: (K, u64),
    now: u64,
    v: V,
    computed: bool,
) -> bool {
    if computed {
        &&& after.contains_key(id)
        &&& cloned(v, after[id].value)
        &&& write_outcome(before, after, id, after[id].value, now)
    } else {
        read_outcome(before, after, rules, id, now, Some(v))
    }
}

/// What a write of `value` under `id` at `now` leaves behind; exactly the
/// old entries and the new one, unless the housekeeper had to run first.
pub open spec fn stored_as<K, V>(
    before: Map<(K, u64), Record<V>>,
    after: Map<(K, u64), Record<V>>,
    id: (K, u64),
    value: V,
    now: u64,
    write_pressure: bool,
) -> bool {
    &&& write_outcome(before, after, id, value, now)
    &&& !write_pressure ==> after == before.insert(id, fresh(value, now))
}

/// What the removal of `id` leaves behind; exactly the other old entries,
/// unless the housekeeper had to run first.
pub open spec fn removed_as<K, V>(
    before: Map<(K, u64), Record<V>>,
    after: Map<(K, u64), Record<V>>,
    id: (K, u64),
    write_pressure: bool,
    rules: Rules,
    now: u64,
    capacity: nat,
) -> bool {
    &&& !after.contains_key(id)
    &&& shrunk(before, after)
    &&& !write_pressure ==> after == before.remove(id)
    &&& before.dom().len() <= capacity ==> kept_visible(before.remove(id), after, rules, now)
}

/// What a read of `key` and `hash` at `now` does to an engine and
/// returns: step by step as `fetched` says, and for the entries as
/// `read_outcome` says.
pub open spec fn read_by<K: PartialEq, V: Clone>(
    before: BaseCache<K, V>,
    after: BaseCache<K, V>,
    key: K,
    hash: u64,
    now: u64,
    r: Option<V>,
) -> bool {
    &&& before.model().fetched(after.model(), key, hash, now, r)
    &&& read_outcome(before@, after@, before.rules(), (key, hash), now, r)
    &&& !before.housekeeping_due() ==> after@.dom() == before@.dom()
    &&& spared(before@, after@, before.rules(), now, before.capacity())
    &&& after.slot_count() == before.slot_count()
}

/// What a write of `value` under `key` and `hash` at `now` does to an
/// engine: step by step as `stored` says, and for the entries as
/// `stored_as` says.
pub open spec fn written_by<K: PartialEq, V>(
    before: BaseCache<K, V>,
    after: BaseCache<K, V>,
    key: K,
    hash: u64,
    value: V,
    now: u64,
) -> bool {
    &&& after.model() == before.model().stored(key, hash, value, now)
    &&& stored_as(before@, after@, (key, hash), value, now, before.write_pressure())
    &&& spared(before@, after@, before.rules(), now, before.capacity())
    &&& before.slot_count() <= after.slot_count() <= before.slot_count() + 1
}

/// What the removal of `key` and `hash` at `now` does to an engine: step
/// by step as `removed` says, and for the entries as `removed_as` says.
pub open spec fn removed_by<K: PartialEq, V>(
    before: BaseCache<K, V>,
    after: BaseCache<K, V>,
    key: K,
    hash: u64,
    now: u64,
) -> bool {
    &&& after.slot_count() == before.slot_count()
    &&& after.model() == before.model().removed(key, hash, now)
    &&& removed_as(
        before@,
        after@,
        (key, hash),
        before.write_pressure(),
        before.rules(),
        now,
        before.capacity(),
    )
}

/// What looking a value up, or else computing and storing it, does to an
/// engine between `begun` and `now`.
///
/// The value is computed exactly when none that can be seen is found.  If
/// it is found, this was a read at `now`.  If it is computed, a read that
/// found nothing was followed by a write of a clone of the value at `now`.
pub open spec fn found_or_stored_by<K: PartialEq, V: Clone>(
    before: BaseCache<K, V>,
    after: BaseCache<K, V>,
    key: K,
    hash: u64,
    begun: u64,
    now: u64,
    v: V,
    computed: bool,
) -> bool {
    let id = (key, hash);
    &&& found_or_stored(before@, after@, before.rules(), id, now, v, computed)
    &&& before.slot_count() <= after.slot_count() <= before.slot_count() + 1
    &&& !computed ==> after.slot_count() == before.slot_count()
    &&& !computed && !before.housekeeping_due() ==> after@.dom() == before@.dom()
    &&& !(before@.contains_key(id) && visible(before@[id], before.rules(), begun)) ==> computed
    &&& before@.contains_key(id) && visible(before@[id], before.rules(), now)
        && !before.housekeeping_due() ==> !computed
    &&& if computed {
        exists|mid: EngineView<K, V>, asked: u64|
            begun <= asked <= now && #[trigger] before.model().fetched(
                mid,
                key,
                hash,
                asked,
                None::<V>,
            ) && after.model() == mid.stored(key, hash, after@[id].value, now)
    } else {
        before.model().fetched(after.model(), key, hash, now, Some(v))
    }
}

/// What looking a value up, or else computing it by a function that may
/// fail, does to an engine between `begun` and `now`.
pub open spec fn tried_by<K: PartialEq, V: Clone, E, F: FnOnce() -> Result<V, E>>(
    before: BaseCache<K, V>,
    after: BaseCache<K, V>,
    key: K,
    hash: u64,
    begun: u64,
    now: u64,
    init: F,
    r: Result<V, Arc<E>>,
) -> bool {
    let id = (key, hash);
    &&& before.slot_count() <= after.slot_count() <= before.slot_count() + 1
    &&& r is Err ==> after.slot_count() == before.slot_count()
    &&& tried(
        before@,
        after@,
        before.rules(),
        id,
        begun,
        now,
        before.housekeeping_due(),
        init,
        r,
    )
    &&& match r {
        Ok(v) => {
            ||| before.model().fetched(after.model(), key, hash, now, Some(v))
            ||| (init.ensures((), Ok(v)) && after@.contains_key(id) && exists|
                mid: EngineView<K, V>,
                asked: u64,
            |
                begun <= asked <= now && #[trigger] before.model().fetched(
                    mid,
                    key,
                    hash,
                    asked,
                    None::<V>,
                ) && after.model() == mid.stored(key, hash, after@[id].value, now))
        },
        Err(_) => before.model().fetched(after.model(), key, hash, now, None::<V>),
    }
}

/// The value that a caller found on entering, if it found one.
pub open spec fn found_of<V>(r: Entered<V>) -> Option<V> {
    match r {
        Entered::Found(v) => Some(v),
        Entered::Turn(_) => None,
    }
}

/// What entering for `key` and `hash` at `now` does to an engine and to
/// the rounds of initialization.
///
/// It is a read of the engine.  If the read finds a value, the rounds stay
/// as they were.  If it finds none, the caller is announced for `hash`
/// and told its turn.
pub open spec fn entered_by<K: PartialEq, V: Clone, E>(
    before: BaseCache<K, V>,
    after: BaseCache<K, V>,
    key: K,
    hash: u64,
    now: u64,
    rounds: Rounds<E>,
    next: Rounds<E>,
    r: Entered<V>,
) -> bool {
    &&& read_by(before, after, key, hash, now, found_of(r))
    &&& match r {
        Entered::Found(_) => next == rounds,
        Entered::Turn(turn) => (next, turn) == rounds.announced(hash),
    }
}

/// What the end of the round of `hash` and `ticket` with `outcome` does
/// to an engine and to the rounds of initialization, and returns.
///
/// A value is returned, and a clone of it was written under `key` and
/// `hash` at `now`.  An error is returned, shared: the engine is as it
/// was, and the error is kept for the callers that wait for the ticket.
/// Either way the round is over.
pub open spec fn completed_by<K: PartialEq, V: Clone, E>(
    before: BaseCache<K, V>,
    after: BaseCache<K, V>,
    key: K,
    hash: u64,
    ticket: u64,
    now: u64,
    outcome: Result<V, E>,
    rounds: Rounds<E>,
    next: Rounds<E>,
    r: Result<V, Arc<E>>,
) -> bool {
    let id = (key, hash);
    match outcome {
        Ok(v) => {
            &&& r == Ok::<V, Arc<E>>(v)
            &&& after@.contains_key(id)
            &&& cloned(v, after@[id].value)
            &&& written_by(before, after, key, hash, after@[id].value, now)
            &&& next == rounds.finished(hash, ticket)
        },
        Err(e) => {
            &&& r is Err
            &&& *r->Err_0 == e
            &&& after == before
            &&& next == rounds.failed(hash, ticket, r->Err_0)
        },
    }
}

/// What an operation leaves as it was: how the cache was built, and the
/// time before which entries are invalid.  Registered predicates may have
/// finished.
pub open spec fn settings_kept<K: PartialEq, V>(
    before: BaseCache<K, V>,
    after: BaseCache<K, V>,
) -> bool {
    &&& after.same_settings(&before)
    &&& after.rules() == before.rules()
    &&& after.predicate_count() <= before.predicate_count()
}

impl<K: Hash + Eq, V, S> Cache<K, V, S> {
    /// The engine of the cache.
    pub closed spec fn base(&self) -> BaseCache<K, V> {
        self.base
    }

    /// The latest time the cache has read from its clock.
    pub closed spec fn latest(&self) -> u64 {
        self.timeline.latest()
    }

    /// The clock that the cache reads.
    pub closed spec fn clock(&self) -> Clock {
        self.timeline.clock()
    }

    /// The engine is well formed, and nothing in it is ahead of the
    /// cache's time: no entry was written or read after the latest time
    /// read from the clock, and nothing was invalidated after it.
    pub closed spec fn wf(&self) -> bool {
        &&& self.base.wf()
        &&& dated(self.base@, self.base.rules(), self.timeline.latest())
    }

    /// What `wf` says of the state that the contracts speak of.
    pub proof fn lemma_wf(&self)
        requires
            self.wf(),
        ensures
            self.base().wf(),
            self@ == self.base()@,
            dated(self@, self.base().rules(), self.latest()),
    {
    }
}

impl<K: Hash + Eq, V: Clone> Cache<K, V, RandomState> {
    /// A cache that holds up to `max_capacity` entries, without
    /// expiration and without support for invalidation predicates.
    pub fn new(max_capacity: usize) -> (c: Self)
        requires
            keys_compare_by_value::<K>(),
        ensures
            c.wf(),
            c.base().model() == crate::model::initial::<K, V>(
                max_capacity as nat,
                None,
                None,
                false,
            ),
            c@ == Map::<(K, u64), Record<V>>::empty(),
            c.latest() == 0,
            c.base().slot_count() == 0,
            c.base().pending_reads() == 0,
            c.base().pending_writes() == 0,
            c.base().capacity() == max_capacity,
            c.base().live_duration() is None,
            c.base().idle_duration() is None,
            c.base().rules() == (Rules {
                time_to_live: None,
                time_to_idle: None,
                valid_after: None,
            }),
            !c.base().predicates_enabled(),
            c.base().predicate_count() == 0,
            c.base().is_opportunistic(),
    {
        let build_hasher = random_state();
        let c = Self::with_everything(max_capacity, None, build_hasher, None, None, false);
        proof {
            c.base.lemma_wf();
        }
        c
    }
}

impl<K: Hash + Eq, V: Clone, S: BuildHasher> Cache<K, V, S> {
    /// A cache with every setting given.
    ///
    /// It holds up to `max_capacity` entries at rest, its store is sized
    /// for `initial_capacity` entries, and it hashes keys with
    /// `build_hasher`.  An entry expires `time_to_live` after it was
    /// written and `time_to_idle` after it was last accessed, where these
    /// are given.  Invalidation predicates can be registered if
    /// `invalidator_enabled` is set.
    pub fn with_everything(
        max_capacity: usize,
        initial_capacity: Option<usize>,
        build_hasher: S,
        time_to_live: Option<Duration>,
        time_to_idle: Option<Duration>,
        invalidator_enabled: bool,
    ) -> (c: Self)
        requires
            keys_compare_by_value::<K>(),
        ensures
            c.wf(),
            c.base().model() == crate::model::initial::<K, V>(
                max_capacity as nat,
                match time_to_live {
                    Some(d) => Some(crate::clock::span_of(d)),
                    None => None,
                },
                match time_to_idle {
                    Some(d) => Some(crate::clock::span_of(d)),
                    None => None,
                },
                invalidator_enabled,
            ),
            c@ == Map::<(K, u64), Record<V>>::empty(),
            c.latest() == 0,
            c.base().slot_count() == 0,
            c.base().pending_reads() == 0,
            c.base().pending_writes() == 0,
            c.base().capacity() == max_capacity,
            c.base().live_duration() == time_to_live,
            c.base().idle_duration() == time_to_idle,
            c.base().rules().valid_after is None,
            c.base().predicates_enabled() == invalidator_enabled,
            c.base().predicate_count() == 0,
            c.base().is_opportunistic(),
    {
        Cache {
            base: BaseCache::new(
                max_capacity,
                initial_capacity,
                time_to_live,
                time_to_idle,
                invalidator_enabled,
            ),
            build_hasher,
            timeline: Timeline::new(),
        }
    }

    /// The hash of `key` under the cache's hasher.
    pub fn hash(&self, key: &K) -> u64 {
        hash_one(&self.build_hasher, key)
    }

    /// A clone of the value stored under `key`, if there is one that can
    /// be seen now.
    pub fn get(&mut self, key: &K) -> (r: Option<V>)
        requires
            old(self).wf(),
        ensures
            final(self).wf(),
            final(self).latest() >= old(self).latest(),
            exists|hash: u64|
                read_by(old(self).base(), final(self).base(), *key, hash, final(self).latest(), r),
            settings_kept(old(self).base(), final(self).base()),
    {
        let hash: u64 = self.hash(key);
        self.get_with_hash(key, hash)
    }

    /// A clone of the value stored under `key` and `hash`, if there is
    /// one that can be seen now.
    pub fn get_with_hash(&mut self, key: &K, hash: u64) -> (r: Option<V>)
        requires
            old(self).wf(),
        ensures
            final(self).wf(),
            final(self).latest() >= old(self).latest(),
            read_by(old(self).base(), final(self).base(), *key, hash, final(self).latest(), r),
            settings_kept(old(self).base(), final(self).base()),
    {
        let now: u64 = self.timeline.now();
        self.base.get_with_hash_at(key, hash, now)
    }

    /// Stores `value` under `key`, in place of any value stored there.
    pub fn insert(&mut self, key: K, value: V)
        requires
            old(self).wf(),
        ensures
            final(self).wf(),
            final(self).latest() >= old(self).latest(),
            exists|hash: u64|
                written_by(
                    old(self).base(),
                    final(self).base(),
                    key,
                    hash,
                    value,
                    final(self).latest(),
                ),
            settings_kept(old(self).base(), final(self).base()),
    {
        let hash: u64 = self.hash(&key);
        self.insert_with_hash(key, hash, value);
    }

    /// Stores `value` under `key` and `hash`, in place of any value stored
    /// there.
    pub fn insert_with_hash(&mut self, key: K, hash: u64, value: V)
        requires
            old(self).wf(),
        ensures
            final(self).wf(),
            final(self).latest() >= old(self).latest(),
            written_by(
                old(self).base(),
                final(self).base(),
                key,
                hash,
                value,
                final(self).latest(),
            ),
            settings_kept(old(self).base(), final(self).base()),
    {
        let now: u64 = self.timeline.now();
        self.base.insert_with_hash_at(key, hash, value, now);
    }

    /// Removes the value stored under `key`, if there is one.
    pub fn invalidate(&mut self, key: &K)
        requires
            old(self).wf(),
        ensures
            final(self).wf(),
            final(self).latest() >= old(self).latest(),
            exists|hash: u64|
                removed_by(old(self).base(), final(self).base(), *key, hash, final(self).latest()),
            settings_kept(old(self).base(), final(self).base()),
    {
        let hash: u64 = self.hash(key);
        self.invalidate_with_hash(key, hash);
    }

    /// Removes the value stored under `key` and `hash`, if there is one.
    pub fn invalidate_with_hash(&mut self, key: &K, hash: u64)
        requires
            old(self).wf(),
        ensures
            final(self).wf(),
            final(self).latest() >= old(self).latest(),
            removed_by(old(self).base(), final(self).base(), *key, hash, final(self).latest()),
            settings_kept(old(self).base(), final(self).base()),
    {
        let now: u64 = self.timeline.now();
        self.base.invalidate_with_hash_at(key, hash, now);
    }

    /// Invalidates every value that was stored before now.
    ///
    /// The values can no longer be read.  They leave the cache when the
    /// housekeeper next finds them.
    pub fn invalidate_all(&mut self)
        requires
            old(self).wf(),
        ensures
            final(self).wf(),
            final(self).latest() >= old(self).latest(),
            final(self).base().model() == old(self).base().model().all_invalidated(
                final(self).latest(),
            ),
            final(self)@ == old(self)@,
            final(self).base().slot_count() == old(self).base().slot_count(),
            final(self).base().rules() == (Rules {
                valid_after: Some(
                    match old(self).base().rules().valid_after {
                        Some(t) => if t > final(self).latest() {
                            t
                        } else {
                            final(self).latest()
                        },
                        None => final(self).latest(),
                    },
                ),
                ..old(self).base().rules()
            }),
            final(self).base().same_settings(&old(self).base()),
            final(self).base().predicate_count() == old(self).base().predicate_count(),
    {
        let now: u64 = self.timeline.now();
        self.base.invalidate_all_at(now);
    }

    /// Invalidates the values stored before now of which `predicate`
    /// holds.
    ///
    /// Fails if the cache was built without support for predicates.
    pub fn invalidate_entries_if<F: Fn(&K, &V) -> bool>(&mut self, predicate: F) -> (r: Result<
        PredicateId,
        PredicateError,
    >)
        requires
            old(self).wf(),
            forall|k: K, v: V| call_requires(predicate, (&k, &v)),
        ensures
            final(self).wf(),
            final(self).latest() >= old(self).latest(),
            final(self).base().slot_count() == old(self).base().slot_count(),
            old(self).base().model().registered(
                final(self).base().model(),
                predicate,
                final(self).latest(),
                r,
            ),
            match r {
                Ok(_) => old(self).base().predicates_enabled() && marked(
                    old(self)@,
                    final(self)@,
                    predicate,
                    final(self).latest(),
                ) && final(self).base().predicate_count() == old(self).base().predicate_count()
                    + 1,
                Err(e) => !old(self).base().predicates_enabled() && e
                    == PredicateError::PredicatesDisabled && final(self)@ == old(self)@
                    && final(self).base().predicate_count() == old(self).base().predicate_count(),
            },
            final(self).base().same_settings(&old(self).base()),
            final(self).base().rules() == old(self).base().rules(),
    {
        self.invalidate_entries_with_fun(&predicate)
    }

    /// Invalidates the values stored before now of which `predicate`
    /// holds, with the predicate on loan.
    pub fn invalidate_entries_with_fun<F: Fn(&K, &V) -> bool>(&mut self, predicate: &F) -> (r:
        Result<PredicateId, PredicateError>)
        requires
            old(self).wf(),
            forall|k: K, v: V| call_requires(*predicate, (&k, &v)),
        ensures
            final(self).wf(),
            final(self).latest() >= old(self).latest(),
            final(self).base().slot_count() == old(self).base().slot_count(),
            old(self).base().model().registered(
                final(self).base().model(),
                *predicate,
                final(self).latest(),
                r,
            ),
            match r {
                Ok(_) => old(self).base().predicates_enabled() && marked(
                    old(self)@,
                    final(self)@,
                    *predicate,
                    final(self).latest(),
                ) && final(self).base().predicate_count() == old(self).base().predicate_count()
                    + 1,
                Err(e) => !old(self).base().predicates_enabled() && e
                    == PredicateError::PredicatesDisabled && final(self)@ == old(self)@
                    && final(self).base().predicate_count() == old(self).base().predicate_count(),
            },
            final(self).base().same_settings(&old(self).base()),
            final(self).base().rules() == old(self).base().rules(),
    {
        let now: u64 = self.timeline.now();
        self.base.invalidate_entries_if_at(predicate, now)
    }

    /// Returns a clone of the value stored under `key`, or else evaluates
    /// `init`, stores a clone of what it returns, and returns that.
    pub fn get_or_insert_with<F: FnOnce() -> V>(&mut self, key: K, init: F) -> (v: V)
        requires
            old(self).wf(),
            init.requires(()),
        ensures
            final(self).wf(),
            final(self).latest() >= old(self).latest(),
            exists|hash: u64, computed: bool|
                #![trigger found_or_stored_by(
                    old(self).base(),
                    final(self).base(),
                    key,
                    hash,
                    old(self).latest(),
                    final(self).latest(),
                    v,
                    computed,
                )]
                found_or_stored_by(
                    old(self).base(),
                    final(self).base(),
                    key,
                    hash,
                    old(self).latest(),
                    final(self).latest(),
                    v,
                    computed,
                ) && (computed ==> init.ensures((), v)),
            settings_kept(old(self).base(), final(self).base()),
    {
        let hash: u64 = self.hash(&key);
        let (v, computed) = self.get_or_insert_with_hash_and_fun(key, hash, init);
        v
    }

    /// Returns a clone of the value stored under `key` and `hash`, or else
    /// evaluates `init`, stores a clone of what it returns, and returns
    /// that.  The flag says whether `init` was evaluated.
    ///
    /// `init` is evaluated exactly when no value that can be seen is
    /// found.
    pub fn get_or_insert_with_hash_and_fun<F: FnOnce() -> V>(
        &mut self,
        key: K,
        hash: u64,
        init: F,
    ) -> (r: (V, bool))
        requires
            old(self).wf(),
            init.requires(()),
        ensures
            final(self).wf(),
            final(self).latest() >= old(self).latest(),
            found_or_stored_by(
                old(self).base(),
                final(self).base(),
                key,
                hash,
                old(self).latest(),
                final(self).latest(),
                r.0,
                r.1,
            ),
            r.1 ==> init.ensures((), r.0),
            settings_kept(old(self).base(), final(self).base()),
    {
        let ghost id = (key, hash);
        let ghost rules = self.base.rules();
        match self.get_with_hash(&key, hash) {
            Some(v) => (v, false),
            None => {
                let ghost mid = *self;
                let v: V = init();
                let stored: V = v.clone();
                let now: u64 = self.timeline.now();
                self.base.insert_with_hash_at(key, hash, stored, now);
                proof {
                    if old(self)@.contains_key(id) && !old(self).base().housekeeping_due() {
                        assert(mid@.contains_key(id));
                        assert(!visible(old(self)@[id], rules, mid.latest()));
                        lemma_expiry_lasts(old(self)@[id], rules, mid.latest(), self.latest());
                    }
                    assert(old(self).base().model().fetched(
                        mid.base().model(),
                        key,
                        hash,
                        mid.latest(),
                        None::<V>,
                    ));
                    assert(self@[id].value == stored);
                }
                (v, true)
            },
        }
    }

    /// Returns a clone of the value stored under `key`, or else evaluates
    /// `init` and, if it returns a value, stores a clone of it and returns
    /// it.  An error of `init` is returned, and nothing is stored.
    pub fn get_or_try_insert_with<E, F: FnOnce() -> Result<V, E>>(&mut self, key: K, init: F) -> (r:
        Result<V, Arc<E>>)
        requires
            old(self).wf(),
            init.requires(()),
        ensures
            final(self).wf(),
            final(self).latest() >= old(self).latest(),
            exists|hash: u64|
                tried_by(
                    old(self).base(),
                    final(self).base(),
                    key,
                    hash,
                    old(self).latest(),
                    final(self).latest(),
                    init,
                    r,
                ),
            settings_kept(old(self).base(), final(self).base()),
    {
        let hash: u64 = self.hash(&key);
        self.get_or_try_insert_with_hash_and_fun(key, hash, init)
    }

    /// Returns a clone of the value stored under `key` and `hash`, or else
    /// evaluates `init` and, if it returns a value, stores a clone of it
    /// and returns it.  An error of `init` is returned, and nothing is
    /// stored.
    pub fn get_or_try_insert_with_hash_and_fun<E, F: FnOnce() -> Result<V, E>>(
        &mut self,
        key: K,
        hash: u64,
        init: F,
    ) -> (r: Result<V, Arc<E>>)
        requires
            old(self).wf(),
            init.requires(()),
        ensures
            final(self).wf(),
            final(self).latest() >= old(self).latest(),
            tried_by(
                old(self).base(),
                final(self).base(),
                key,
                hash,
                old(self).latest(),
                final(self).latest(),
                init,
                r,
            ),
            settings_kept(old(self).base(), final(self).base()),
    {
        let ghost id = (key, hash);
        let ghost rules = self.base.rules();
        match self.get_with_hash(&key, hash) {
            Some(v) => Ok(v),
            None => {
                let ghost mid = *self;
                let outcome: Result<V, E> = init();
                let r: Result<V, Arc<E>> = match outcome {
                    Ok(v) => {
                        let stored: V = v.clone();
                        let now: u64 = self.timeline.now();
                        self.base.insert_with_hash_at(key, hash, stored, now);
                        proof {
                            assert(self.base@[id].value == stored);
                        }
                        Ok(v)
                    },
                    Err(e) => Err(Arc::new(e)),
                };
                proof {
                    assert(old(self).base().model().fetched(
                        mid.base().model(),
                        key,
                        hash,
                        mid.latest(),
                        None::<V>,
                    ));
                }
                proof {
                    if old(self)@.contains_key(id) && !old(self).base().housekeeping_due() {
                        assert(mid@.contains_key(id));
                        assert(!visible(old(self)@[id], rules, mid.latest()));
                        lemma_expiry_lasts(old(self)@[id], rules, mid.latest(), self.latest());
                    }
                }
                r
            },
        }
    }

    /// Looks for the value stored under `key` and `hash`, and announces
    /// the caller to `rounds` if none that can be seen is found.
    ///
    /// A caller that is told to evaluate computes the value and hands it
    /// to `complete_with_hash`.  A caller that is told to wait does so
    /// until the round is over, takes what `rounds` tells it on leaving,
    /// and, if it is told nothing, enters again.
    pub fn enter_with_hash<E>(
        &mut self,
        key: &K,
        hash: u64,
        rounds: &mut ValueInitializer<E>,
    ) -> (r: Entered<V>)
        requires
            old(self).wf(),
        ensures
            final(self).wf(),
            final(self).latest() >= old(self).latest(),
            entered_by(
                old(self).base(),
                final(self).base(),
                *key,
                hash,
                final(self).latest(),
                old(rounds).rounds(),
                final(rounds).rounds(),
                r,
            ),
            settings_kept(old(self).base(), final(self).base()),
    {
        match self.get_with_hash(key, hash) {
            Some(v) => Entered::Found(v),
            None => Entered::Turn(rounds.begin(hash)),
        }
    }

    /// Ends the round of `hash` that the holder of `ticket` evaluated to
    /// `outcome`.
    ///
    /// A clone of a value is stored under `key` and `hash`, and the value
    /// is returned.  An error is returned, shared with the callers that
    /// wait for the ticket, and the cache stays as it was.
    pub fn complete_with_hash<E>(
        &mut self,
        key: K,
        hash: u64,
        ticket: u64,
        outcome: Result<V, E>,
        rounds: &mut ValueInitializer<E>,
    ) -> (r: Result<V, Arc<E>>)
        requires
            old(self).wf(),
        ensures
            final(self).wf(),
            final(self).latest() >= old(self).latest(),
            settings_kept(old(self).base(), final(self).base()),
            completed_by(
                old(self).base(),
                final(self).base(),
                key,
                hash,
                ticket,
                final(self).latest(),
                outcome,
                old(rounds).rounds(),
                final(rounds).rounds(),
                r,
            ),
            outcome is Err ==> final(self).latest() == old(self).latest(),
    {
        match outcome {
            Ok(v) => {
                let stored: V = v.clone();
                self.insert_with_hash(key, hash, stored);
                rounds.finish(hash, ticket);
                Ok(v)
            },
            Err(e) => {
                let error: Arc<E> = Arc::new(e);
                rounds.finish_failed(hash, ticket, share_error(&error));
                Err(error)
            },
        }
    }

    /// Runs the housekeeper until no note of an operation is waiting.
    ///
    /// Afterwards the cache holds no more entries than its capacity.  What
    /// it removed could no longer be seen, or was in excess of the
    /// capacity.
    pub fn sync(&mut self)
        requires
            old(self).wf(),
        ensures
            final(self).wf(),
            final(self).latest() >= old(self).latest(),
            final(self).base().slot_count() == old(self).base().slot_count(),
            final(self).base().model() == old(self).base().model().synced(final(self).latest()),
            housekept(
                old(self)@,
                final(self)@,
                old(self).base().rules(),
                final(self).latest(),
                old(self).base().capacity(),
            ),
            shrunk(old(self)@, final(self)@),
            final(self)@.dom().finite(),
            final(self)@.dom().len() <= final(self).base().capacity(),
            final(self).base().pending_reads() == 0,
            final(self).base().pending_writes() == 0,
            final(self).base().same_settings(&old(self).base()),
            final(self).base().rules() == old(self).base().rules(),
            final(self).base().predicate_count() <= old(self).base().predicate_count(),
            old(self).base().slot_count() <= INVALIDATION_BATCH
                ==> final(self).base().predicate_count() == 0,
    {
        let now: u64 = self.timeline.now();
        self.base.sync_at(now);
    }

    /// The largest number of entries the cache holds at rest.
    pub fn max_capacity(&self) -> (n: usize)
        ensures
            n == self.base().capacity(),
    {
        self.base.max_capacity()
    }

    /// How long a value lives after it was stored.
    pub fn time_to_live(&self) -> (d: Option<Duration>)
        ensures
            d == self.base().live_duration(),
    {
        self.base.time_to_live()
    }

    /// How long a value lives after it was last stored or read.
    pub fn time_to_idle(&self) -> (d: Option<Duration>)
        ensures
            d == self.base().idle_duration(),
    {
        self.base.time_to_idle()
    }

    /// The number of segments of the cache, which is one.
    pub fn num_segments(&self) -> (n: usize)
        ensures
            n == 1,
    {
        1
    }

    /// The number of entries in the cache, whether or not they can still
    /// be seen.
    pub fn table_size(&self) -> (n: usize)
        requires
            self.wf(),
        ensures
            n == self@.dom().len(),
    {
        self.base.table_size()
    }

    /// Whether the cache holds no entry.
    pub fn is_table_empty(&self) -> (b: bool)
        requires
            self.wf(),
        ensures
            b == (self@.dom().len() == 0),
    {
        self.table_size() == 0
    }

    /// The number of predicates whose matches have not all been reaped.
    pub fn invalidation_predicate_count(&self) -> (n: usize)
        ensures
            n == self.base().predicate_count(),
    {
        self.base.invalidation_predicate_count()
    }

    /// Stops operations from running the housekeeper when the event
    /// buffers fill up, so that it runs only in `sync` and when the write
    /// buffer is full.
    pub fn reconfigure_for_testing(&mut self)
        requires
            old(self).wf(),
        ensures
            final(self).wf(),
            final(self).base().slot_count() == old(self).base().slot_count(),
            final(self).base().pending_reads() == old(self).base().pending_reads(),
            final(self).base().pending_writes() == old(self).base().pending_writes(),
            final(self).base().model() == old(self).base().model().muted(),
            final(self)@ == old(self)@,
            final(self).latest() == old(self).latest(),
            !final(self).base().is_opportunistic(),
            final(self).base().rules() == old(self).base().rules(),
            final(self).base().capacity() == old(self).base().capacity(),
            final(self).base().live_duration() == old(self).base().live_duration(),
            final(self).base().idle_duration() == old(self).base().idle_duration(),
            final(self).base().predicates_enabled() == old(self).base().predicates_enabled(),
            final(self).base().predicate_count() == old(self).base().predicate_count(),
    {
        self.base.reconfigure_for_testing();
    }

    /// Makes the cache read the time from `clock`, or from the machine's
    /// clock if none is given.  The cache's time goes on from where it
    /// was, at the pace of the new clock.
    pub fn set_expiration_clock(&mut self, clock: Option<Clock>)
        requires
            old(self).wf(),
        ensures
            final(self).wf(),
            final(self)@ == old(self)@,
            final(self).base() == old(self).base(),
            final(self).latest() == old(self).latest(),
            clock is Some ==> final(self).clock() == clock->0,
    {
        let clock: Clock = match clock {
            Some(c) => c,
            None => clock_new(),
        };
        self.timeline.switch_to(clock);
    }
}

/// What happened when a value was looked up or else computed by a function
/// that may fail.
///
/// A value is returned if it was found or computed, as by
/// `found_or_stored`.  An error is returned if no value that can be seen
/// was found and the function failed; then nothing was stored.  The
/// function is evaluated exactly when no value that can be seen is found.
pub open spec fn tried<K, V: Clone, E, F: FnOnce() -> Result<V, E>>(
    before: Map<(K, u64), Record<V>>,
    after: Map<(K, u64), Record<V>>,
    rules: Rules,
    id: (K, u64),
    begun: u64,
    now: u64,
    housekeeping_due: bool,
    init: F,
    r: Result<V, Arc<E>>,
) -> bool {
    let unseen = !(before.contains_key(id) && visible(before[id], rules, begun));
    let seen = before.contains_key(id) && visible(before[id], rules, now) && !housekeeping_due;
    match r {
        Ok(v) => {
            ||| !unseen && found_or_stored(before, after, rules, id, now, v, false)
            ||| !seen && found_or_stored(before, after, rules, id, now, v, true) && init.ensures(
                (),
                Ok(v),
            )
        },
        Err(e) => !seen && init.ensures((), Err(*e)) && read_outcome(
            before,
            after,
            rules,
            id,
            now,
            None::<V>,
        ),
    }
}

} // verus!
