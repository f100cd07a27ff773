//! A cache that is split into segments.
//!
//! The number of segments is a power of two.  The leading bits of the
//! hash of a key pick its segment, and the segment, a cache of its own
//! with its share of the capacity, does the rest.  What concerns all keys
//! is passed on to every segment.

use vstd::prelude::*;
use std::collections::hash_map::RandomState;
use std::hash::BuildHasher;
use std::hash::Hash;
use std::sync::Arc;
use std::time::Duration;
use quanta::Clock;
use crate::base::marked;
use crate::base::housekept;
use crate::base::PredicateError;
use crate::base::Record;
use crate::base::Rules;
use crate::base::INVALIDATION_BATCH;
use crate::cache::completed_by;
use crate::cache::entered_by;
use crate::cache::found_or_stored_by;
use crate::cache::read_by;
use crate::cache::removed_by;
use crate::cache::settings_kept;
use crate::cache::tried_by;
use crate::cache::written_by;
use crate::cache::Cache;
use crate::clock::share_clock;
use crate::hashing::hash_one;
use crate::hashing::random_state;
use crate::initializer::Entered;
use crate::initializer::Rounds;
use crate::initializer::ValueInitializer;
use crate::table::keys_compare_by_value;

verus! {

/// The largest number of segments a cache can be split into.
pub const MAX_SEGMENTS: usize = 0x4000_0000;

/// The number of hash bits that pick the segment when `num_segments`
/// segments are asked for: the least number, from `bits` on, of which two
/// to the power is no less than `num_segments`.
pub open spec fn bits_for(num_segments: nat, bits: u32) -> u32
    decreases 30 - bits,
{
    if bits >= 30 || (1u64 << bits) >= num_segments {
        bits
    } else {
        bits_for(num_segments, (bits + 1) as u32)
    }
}

/// The number of segments of a cache for which `num_segments` segments
/// were asked: `num_segments` rounded up to a power of two.
pub open spec fn segments_for(num_segments: nat) -> nat {
    (1u64 << bits_for(num_segments, 0)) as nat
}

/// The capacity of each segment of a cache of `max_capacity` entries in
/// `segments` segments: an equal share, rounded down.
pub open spec fn share_of(max_capacity: nat, segments: nat) -> nat {
    max_capacity / segments
}

/// The segment of a key with the hash `hash` in a cache whose segments
/// are picked by `bits` bits: the number that the leading `bits` bits of
/// the hash spell.
pub open spec fn segment_of(hash: u64, bits: u32) -> int {
    if bits == 0 {
        0
    } else {
        (hash >> ((64 - bits) as u64)) as int
    }
}

proof fn lemma_segment_of(hash: u64, bits: u32)
    requires
        bits <= 30,
    ensures
        0 <= segment_of(hash, bits) < (1u64 << bits),
        1 <= (1u64 << bits) <= MAX_SEGMENTS,
{
    let b: u64 = bits as u64;
    assert(b <= 30 ==> 1 <= (1u64 << b) <= 0x4000_0000) by (bit_vector);
    if bits > 0 {
        assert(0 < b <= 30 ==> (hash >> ((64 - b) as u64)) < (1u64 << b)) by (bit_vector);
    } else {
        assert((1u64 << 0u64) == 1) by (bit_vector);
    }
}

/// A cache made of independent segments.
#[verifier::reject_recursive_types(K)]
pub struct SegmentedCache<K, V, S = RandomState> {
    segments: Vec<Cache<K, V, S>>,
    build_hasher: S,
    desired_capacity: usize,
    bits: u32,
}

/// All segments but `i` are as they were.
pub open spec fn others_kept<K: Hash + Eq, V, S>(
    before: Seq<Cache<K, V, S>>,
    after: Seq<Cache<K, V, S>>,
    i: int,
) -> bool {
    &&& after.len() == before.len()
    &&& forall|j: int| 0 <= j < before.len() && j != i ==> #[trigger] after[j] == before[j]
}

/// A read of `key` with the hash `hash` took place in the segment of the
/// hash, as a read of that segment alone, and returned `r`.
pub open spec fn read_in_segment<K: Hash + Eq, V: Clone, S>(
    before: Seq<Cache<K, V, S>>,
    after: Seq<Cache<K, V, S>>,
    bits: u32,
    key: K,
    hash: u64,
    r: Option<V>,
) -> bool {
    let i = segment_of(hash, bits);
    &&& others_kept(before, after, i)
    &&& read_by(before[i].base(), after[i].base(), key, hash, after[i].latest(), r)
    &&& settings_kept(before[i].base(), after[i].base())
    &&& after[i].latest() >= before[i].latest()
}

/// A write of `value` under `key` with the hash `hash` took place in the
/// segment of the hash, as a write of that segment alone.
pub open spec fn stored_in_segment<K: Hash + Eq, V, S>(
    before: Seq<Cache<K, V, S>>,
    after: Seq<Cache<K, V, S>>,
    bits: u32,
    key: K,
    hash: u64,
    value: V,
) -> bool {
    let i = segment_of(hash, bits);
    &&& others_kept(before, after, i)
    &&& written_by(before[i].base(), after[i].base(), key, hash, value, after[i].latest())
    &&& settings_kept(before[i].base(), after[i].base())
    &&& after[i].latest() >= before[i].latest()
}

/// The removal of `key` with the hash `hash` took place in the segment of
/// the hash, as a removal from that segment alone.
pub open spec fn removed_in_segment<K: Hash + Eq, V, S>(
    before: Seq<Cache<K, V, S>>,
    after: Seq<Cache<K, V, S>>,
    bits: u32,
    key: K,
    hash: u64,
) -> bool {
    let i = segment_of(hash, bits);
    &&& others_kept(before, after, i)
    &&& removed_by(before[i].base(), after[i].base(), key, hash, after[i].latest())
    &&& settings_kept(before[i].base(), after[i].base())
    &&& after[i].latest() >= before[i].latest()
}

/// The value `v` of `key` with the hash `hash` was found in the segment of
/// the hash, or else computed and stored there, and no other segment was
/// touched.
pub open spec fn found_or_stored_in_segment<K: Hash + Eq, V: Clone, S>(
    before: Seq<Cache<K, V, S>>,
    after: Seq<Cache<K, V, S>>,
    bits: u32,
    key: K,
    hash: u64,
    v: V,
    computed: bool,
) -> bool {
    let i = segment_of(hash, bits);
    &&& others_kept(before, after, i)
    &&& found_or_stored_by(
        before[i].base(),
        after[i].base(),
        key,
        hash,
        before[i].latest(),
        after[i].latest(),
        v,
        computed,
    )
    &&& settings_kept(before[i].base(), after[i].base())
    &&& after[i].latest() >= before[i].latest()
}

/// The value of `key` with the hash `hash` was found in the segment of the
/// hash, or else `init` was tried there, and no other segment was touched.
pub open spec fn tried_in_segment<K: Hash + Eq, V: Clone, S, E, F: FnOnce() -> Result<V, E>>(
    before: Seq<Cache<K, V, S>>,
    after: Seq<Cache<K, V, S>>,
    bits: u32,
    key: K,
    hash: u64,
    init: F,
    r: Result<V, Arc<E>>,
) -> bool {
    let i = segment_of(hash, bits);
    &&& others_kept(before, after, i)
    &&& tried_by(
        before[i].base(),
        after[i].base(),
        key,
        hash,
        before[i].latest(),
        after[i].latest(),
        init,
        r,
    )
    &&& settings_kept(before[i].base(), after[i].base())
    &&& after[i].latest() >= before[i].latest()
}

/// A caller entered for `key` with the hash `hash` in the segment of the
/// hash, and no other segment was touched.
pub open spec fn entered_in_segment<K: Hash + Eq, V: Clone, S, E>(
    before: Seq<Cache<K, V, S>>,
    after: Seq<Cache<K, V, S>>,
    bits: u32,
    key: K,
    hash: u64,
    rounds: Rounds<E>,
    next: Rounds<E>,
    r: Entered<V>,
) -> bool {
    let i = segment_of(hash, bits);
    &&& others_kept(before, after, i)
    &&& entered_by(
        before[i].base(),
        after[i].base(),
        key,
        hash,
        after[i].latest(),
        rounds,
        next,
        r,
    )
    &&& settings_kept(before[i].base(), after[i].base())
    &&& after[i].latest() >= before[i].latest()
}

/// The round of `hash` and `ticket` ended with `outcome` in the segment of
/// the hash, and no other segment was touched.
pub open spec fn completed_in_segment<K: Hash + Eq, V: Clone, S, E>(
    before: Seq<Cache<K, V, S>>,
    after: Seq<Cache<K, V, S>>,
    bits: u32,
    key: K,
    hash: u64,
    ticket: u64,
    outcome: Result<V, E>,
    rounds: Rounds<E>,
    next: Rounds<E>,
    r: Result<V, Arc<E>>,
) -> bool {
    let i = segment_of(hash, bits);
    &&& others_kept(before, after, i)
    &&& completed_by(
        before[i].base(),
        after[i].base(),
        key,
        hash,
        ticket,
        after[i].latest(),
        outcome,
        rounds,
        next,
        r,
    )
    &&& settings_kept(before[i].base(), after[i].base())
    &&& after[i].latest() >= before[i].latest()
}

impl<K: Hash + Eq, V, S> SegmentedCache<K, V, S> {
    /// The segments.
    pub closed spec fn segments(&self) -> Seq<Cache<K, V, S>> {
        self.segments@
    }

    /// The number of leading hash bits that pick the segment.
    pub closed spec fn bits(&self) -> u32 {
        self.bits
    }

    /// The capacity the cache was built with.
    pub closed spec fn capacity(&self) -> nat {
        self.desired_capacity as nat
    }

    /// There are two to the power of `bits` segments, all well formed and
    /// built alike, each with an equal share of the capacity.
    pub closed spec fn wf(&self) -> bool {
        &&& self.bits <= 30
        &&& self.segments.len() == (1u64 << self.bits)
        &&& forall|i: int| 0 <= i < self.segments.len() ==> (#[trigger] self.segments[i]).wf()
        &&& forall|i: int|
            0 <= i < self.segments.len() ==> (#[trigger] self.segments[i]).base().same_settings(
                &self.segments[0].base(),
            )
        &&& self.segments[0].base().capacity() == self.desired_capacity / self.segments.len()
    }

    /// What `wf` says of the segments.
    pub proof fn lemma_wf(&self)
        requires
            self.wf(),
        ensures
            self.bits() <= 30,
            self.segments().len() == (1u64 << self.bits()),
            1 <= self.segments().len() <= MAX_SEGMENTS,
            forall|i: int| 0 <= i < self.segments().len() ==> (#[trigger] self.segments()[i]).wf(),
            forall|i: int|
                0 <= i < self.segments().len() ==> (
                #[trigger] self.segments()[i]).base().same_settings(&self.segments()[0].base()),
            self.segments()[0].base().capacity() == self.capacity() / self.segments().len(),
            forall|hash: u64| 0 <= #[trigger] segment_of(hash, self.bits()) < self.segments().len(),
    {
        lemma_segment_of(0, self.bits);
        assert forall|hash: u64| 0 <= #[trigger] segment_of(hash, self.bits())
            < self.segments().len() by {
            lemma_segment_of(hash, self.bits);
        }
    }
}

impl<K: Hash + Eq, V: Clone> SegmentedCache<K, V, RandomState> {
    /// A cache of `num_segments` segments, rounded up to a power of two,
    /// that holds up to `max_capacity` entries in all, without expiration
    /// and without support for invalidation predicates.
    pub fn new(max_capacity: usize, num_segments: usize) -> (c: Self)
        requires
            keys_compare_by_value::<K>(),
            0 < num_segments <= MAX_SEGMENTS,
        ensures
            c.wf(),
            c.capacity() == max_capacity,
            c.segments().len() == segments_for(num_segments as nat),
            c.segments().len() >= 1,
            c.bits() == bits_for(num_segments as nat, 0),
            total_predicates(c.segments(), c.segments().len() as int) == 0,
            forall|i: int|
                0 <= i < c.segments().len() ==> {
                    &&& (#[trigger] c.segments()[i])@ == Map::<(K, u64), Record<V>>::empty()
                    &&& c.segments()[i].base().model() == crate::model::initial::<K, V>(
                        share_of(max_capacity as nat, c.segments().len()),
                        None,
                        None,
                        false,
                    )
                    &&& c.segments()[i].latest() == 0
                    &&& c.segments()[i].base().predicate_count() == 0
                    &&& c.segments()[i].base().slot_count() == 0
                    &&& c.segments()[i].base().pending_reads() == 0
                    &&& c.segments()[i].base().pending_writes() == 0
                    &&& c.segments()[i].base().is_opportunistic()
                    &&& c.segments()[i].base().live_duration() is None
                    &&& c.segments()[i].base().idle_duration() is None
                    &&& !c.segments()[i].base().predicates_enabled()
                },
    {
        let build_hasher = random_state();
        Self::with_everything(max_capacity, None, num_segments, build_hasher, None, None, false)
    }
}

impl<K: Hash + Eq, V: Clone, S: BuildHasher + Clone> SegmentedCache<K, V, S> {
    /// A segmented cache with every setting given.
    ///
    /// Every segment is built with the given settings, an equal share of
    /// `max_capacity` and of `initial_capacity`, and a clone of
    /// `build_hasher`.
    pub fn with_everything(
        max_capacity: usize,
        initial_capacity: Option<usize>,
        num_segments: usize,
        build_hasher: S,
        time_to_live: Option<Duration>,
        time_to_idle: Option<Duration>,
        invalidator_enabled: bool,
    ) -> (c: Self)
        requires
            keys_compare_by_value::<K>(),
            0 < num_segments <= MAX_SEGMENTS,
        ensures
            c.wf(),
            c.capacity() == max_capacity,
            c.segments().len() == segments_for(num_segments as nat),
            c.segments().len() >= 1,
            c.bits() == bits_for(num_segments as nat, 0),
            total_predicates(c.segments(), c.segments().len() as int) == 0,
            forall|i: int|
                0 <= i < c.segments().len() ==> {
                    &&& (#[trigger] c.segments()[i])@ == Map::<(K, u64), Record<V>>::empty()
                    &&& c.segments()[i].base().model() == crate::model::initial::<K, V>(
                        share_of(max_capacity as nat, c.segments().len()),
                        match time_to_live {
                            Some(d) => Some(crate::clock::span_of(d)),
                            None => None,
                        },
                        match time_to_idle {
                            Some(d) => Some(crate::clock::span_of(d)),
                            None => None,
                        },
                        invalidator_enabled,
                    )
                    &&& c.segments()[i].latest() == 0
                    &&& c.segments()[i].base().predicate_count() == 0
                    &&& c.segments()[i].base().slot_count() == 0
                    &&& c.segments()[i].base().pending_reads() == 0
                    &&& c.segments()[i].base().pending_writes() == 0
                    &&& c.segments()[i].base().is_opportunistic()
                    &&& c.segments()[i].base().live_duration() == time_to_live
                    &&& c.segments()[i].base().idle_duration() == time_to_idle
                    &&& c.segments()[i].base().predicates_enabled() == invalidator_enabled
                    &&& c.segments()[i].base().capacity() == share_of(
                        max_capacity as nat,
                        c.segments().len(),
                    )
                },
    {
        let mut bits: u32 = 0;
        proof {
            lemma_segment_of(0, 0);
        }
        while bits < 30 && ((1u64 << bits) as usize) < num_segments
            invariant
                bits <= 30,
                1 <= (1u64 << bits) <= MAX_SEGMENTS,
                bits_for(num_segments as nat, bits) == bits_for(num_segments as nat, 0),
            decreases 30 - bits,
        {
            bits = bits + 1;
            proof {
                lemma_segment_of(0, bits);
            }
        }
        let count: usize = (1u64 << bits) as usize;
        let seg_capacity: usize = max_capacity / count;
        let seg_initial: Option<usize> = match initial_capacity {
            Some(n) => Some(n / count),
            None => None,
        };
        let mut segments: Vec<Cache<K, V, S>> = Vec::new();
        let mut i: usize = 0;
        while i < count
            invariant
                i <= count,
                segments.len() == i,
                keys_compare_by_value::<K>(),
                forall|j: int|
                    0 <= j < i ==> {
                        &&& (#[trigger] segments[j]).wf()
                        &&& segments[j]@ == Map::<(K, u64), Record<V>>::empty()
                        &&& segments[j].latest() == 0
                        &&& segments[j].base().predicate_count() == 0
                        &&& segments[j].base().slot_count() == 0
                        &&& segments[j].base().pending_reads() == 0
                        &&& segments[j].base().pending_writes() == 0
                        &&& segments[j].base().model() == crate::model::initial::<K, V>(
                            seg_capacity as nat,
                            match time_to_live {
                                Some(d) => Some(crate::clock::span_of(d)),
                                None => None,
                            },
                            match time_to_idle {
                                Some(d) => Some(crate::clock::span_of(d)),
                                None => None,
                            },
                            invalidator_enabled,
                        )
                        &&& segments[j].base().capacity() == seg_capacity
                        &&& segments[j].base().live_duration() == time_to_live
                        &&& segments[j].base().idle_duration() == time_to_idle
                        &&& segments[j].base().predicates_enabled() == invalidator_enabled
                        &&& segments[j].base().is_opportunistic()
                    },
            decreases count - i,
        {
            let segment = Cache::with_everything(
                seg_capacity,
                seg_initial,
                build_hasher.clone(),
                time_to_live,
                time_to_idle,
                invalidator_enabled,
            );
            segments.push(segment);
            i = i + 1;
        }
        let c = SegmentedCache { segments, build_hasher, desired_capacity: max_capacity, bits };
        proof {
            lemma_total_predicates_even(c.segments@, c.segments@.len() as int, 0);
            assert forall|j: int| 0 <= j < c.segments.len() implies (
            #[trigger] c.segments[j]).base().same_settings(&c.segments[0].base()) by {
                c.segments[j].lemma_wf();
                c.segments[0].lemma_wf();
                c.segments[j].base().lemma_wf();
                c.segments[0].base().lemma_wf();
            }
        }
        c
    }

    /// The segment of a key with the hash `hash`.
    pub fn segment_index_from_hash(&self, hash: u64) -> (i: usize)
        requires
            self.wf(),
        ensures
            i == segment_of(hash, self.bits()),
            i < self.segments().len(),
    {
        proof {
            lemma_segment_of(hash, self.bits);
        }
        if self.bits == 0 {
            0
        } else {
            (hash >> ((64 - self.bits) as u64)) as usize
        }
    }

    /// A clone of the value stored under `key`, if there is one that can
    /// be seen now.  Only the segment of the key is touched.
    pub fn get(&mut self, key: &K) -> (r: Option<V>)
        requires
            old(self).wf(),
        ensures
            final(self).wf(),
            final(self).bits() == old(self).bits(),
            final(self).capacity() == old(self).capacity(),
            exists|hash: u64|
                read_in_segment(
                    old(self).segments(),
                    final(self).segments(),
                    old(self).bits(),
                    *key,
                    hash,
                    r,
                ),
    {
        let hash: u64 = hash_one(&self.build_hasher, key);
        let i: usize = self.segment_index_from_hash(hash);
        let r = self.segments[i].get_with_hash(key, hash);
        proof {
            self.lemma_kept(*old(self), i as int);
            assert(read_in_segment(
                old(self).segments(),
                self.segments(),
                old(self).bits(),
                *key,
                hash,
                r,
            ));
        }
        r
    }

    /// A change of one segment that keeps its settings keeps the cache
    /// well formed.
    proof fn lemma_kept(&self, before: Self, i: int)
        requires
            before.wf(),
            0 <= i < before.segments.len(),
            self.bits == before.bits,
            self.desired_capacity == before.desired_capacity,
            others_kept(before.segments@, self.segments@, i),
            self.segments[i].wf(),
            self.segments[i].base().same_settings(&before.segments[i].base()),
        ensures
            self.wf(),
    {
        assert forall|j: int| 0 <= j < self.segments.len() implies (#[trigger] self.segments[j]).wf(
        ) by {
            if j != i {
                assert(self.segments[j] == before.segments[j]);
            }
        }
        assert forall|j: int| 0 <= j < self.segments.len() implies (
        #[trigger] self.segments[j]).base().same_settings(&self.segments[0].base()) by {
            assert(before.segments[j].base().same_settings(&before.segments[0].base()));
            assert(before.segments[i].base().same_settings(&before.segments[0].base()));
            if j != i {
                assert(self.segments[j] == before.segments[j]);
            }
            if 0 != i {
                assert(self.segments[0] == before.segments[0]);
            }
        }
        assert(before.segments[i].base().same_settings(&before.segments[0].base()));
        if 0 != i {
            assert(self.segments[0] == before.segments[0]);
        }
    }

    /// Stores `value` under `key`, in place of any value stored there.
    /// Only the segment of the key is touched.
    pub fn insert(&mut self, key: K, value: V)
        requires
            old(self).wf(),
        ensures
            final(self).wf(),
            final(self).bits() == old(self).bits(),
            final(self).capacity() == old(self).capacity(),
            exists|hash: u64|
                stored_in_segment(
                    old(self).segments(),
                    final(self).segments(),
                    old(self).bits(),
                    key,
                    hash,
                    value,
                ),
    {
        let hash: u64 = hash_one(&self.build_hasher, &key);
        let i: usize = self.segment_index_from_hash(hash);
        self.segments[i].insert_with_hash(key, hash, value);
        proof {
            self.lemma_kept(*old(self), i as int);
            assert(stored_in_segment(
                old(self).segments(),
                self.segments(),
                old(self).bits(),
                key,
                hash,
                value,
            ));
        }
    }

    /// Removes the value stored under `key`, if there is one.  Only the
    /// segment of the key is touched.
    pub fn invalidate(&mut self, key: &K)
        requires
            old(self).wf(),
        ensures
            final(self).wf(),
            final(self).bits() == old(self).bits(),
            final(self).capacity() == old(self).capacity(),
            exists|hash: u64|
                removed_in_segment(
                    old(self).segments(),
                    final(self).segments(),
                    old(self).bits(),
                    *key,
                    hash,
                ),
    {
        let hash: u64 = hash_one(&self.build_hasher, key);
        let i: usize = self.segment_index_from_hash(hash);
        self.segments[i].invalidate_with_hash(key, hash);
        proof {
            self.lemma_kept(*old(self), i as int);
            assert(removed_in_segment(
                old(self).segments(),
                self.segments(),
                old(self).bits(),
                *key,
                hash,
            ));
        }
    }

    /// Returns a clone of the value stored under `key`, or else evaluates
    /// `init`, stores a clone of what it returns, and returns that.  Only
    /// the segment of the key is touched.
    pub fn get_or_insert_with<F: FnOnce() -> V>(&mut self, key: K, init: F) -> (v: V)
        requires
            old(self).wf(),
            init.requires(()),
        ensures
            final(self).wf(),
            final(self).bits() == old(self).bits(),
            final(self).capacity() == old(self).capacity(),
            exists|hash: u64, computed: bool|
                #![trigger found_or_stored_in_segment(
                    old(self).segments(),
                    final(self).segments(),
                    old(self).bits(),
                    key,
                    hash,
                    v,
                    computed,
                )]
                found_or_stored_in_segment(
                    old(self).segments(),
                    final(self).segments(),
                    old(self).bits(),
                    key,
                    hash,
                    v,
                    computed,
                ) && (computed ==> init.ensures((), v)),
    {
        let hash: u64 = hash_one(&self.build_hasher, &key);
        let i: usize = self.segment_index_from_hash(hash);
        let (v, computed) = self.segments[i].get_or_insert_with_hash_and_fun(key, hash, init);
        proof {
            self.lemma_kept(*old(self), i as int);
            assert(found_or_stored_in_segment(
                old(self).segments(),
                self.segments(),
                old(self).bits(),
                key,
                hash,
                v,
                computed,
            ));
        }
        v
    }

    /// Returns a clone of the value stored under `key`, or else evaluates
    /// `init` and, if it returns a value, stores a clone of it and returns
    /// it.  An error of `init` is returned, and nothing is stored.  Only
    /// the segment of the key is touched.
    pub fn get_or_try_insert_with<E, F: FnOnce() -> Result<V, E>>(&mut self, key: K, init: F) -> (r:
        Result<V, Arc<E>>)
        requires
            old(self).wf(),
            init.requires(()),
        ensures
            final(self).wf(),
            final(self).bits() == old(self).bits(),
            final(self).capacity() == old(self).capacity(),
            exists|hash: u64|
                tried_in_segment(
                    old(self).segments(),
                    final(self).segments(),
                    old(self).bits(),
                    key,
                    hash,
                    init,
                    r,
                ),
    {
        let hash: u64 = hash_one(&self.build_hasher, &key);
        let i: usize = self.segment_index_from_hash(hash);
        let r = self.segments[i].get_or_try_insert_with_hash_and_fun(key, hash, init);
        proof {
            self.lemma_kept(*old(self), i as int);
            assert(tried_in_segment(
                old(self).segments(),
                self.segments(),
                old(self).bits(),
                key,
                hash,
                init,
                r,
            ));
        }
        r
    }

    /// The hash of `key` under the cache's hasher.
    pub fn hash(&self, key: &K) -> u64 {
        hash_one(&self.build_hasher, key)
    }

    /// Looks for the value stored under `key` and `hash` in the segment of
    /// the hash, and announces the caller to `rounds` if none that can be
    /// seen is found.
    pub fn enter_with_hash<E>(
        &mut self,
        key: &K,
        hash: u64,
        rounds: &mut ValueInitializer<E>,
    ) -> (r: Entered<V>)
        requires
            old(self).wf(),
        ensures
            final(self).wf(),
            final(self).bits() == old(self).bits(),
            final(self).capacity() == old(self).capacity(),
            entered_in_segment(
                old(self).segments(),
                final(self).segments(),
                old(self).bits(),
                *key,
                hash,
                old(rounds).rounds(),
                final(rounds).rounds(),
                r,
            ),
    {
        let i: usize = self.segment_index_from_hash(hash);
        let r = self.segments[i].enter_with_hash(key, hash, rounds);
        proof {
            self.lemma_kept(*old(self), i as int);
        }
        r
    }

    /// Ends the round of `hash` that the holder of `ticket` evaluated to
    /// `outcome`, in the segment of the hash: a value is stored there and
    /// returned, an error is returned and shared with the callers that
    /// wait for the ticket.
    pub fn complete_with_hash<E>(
        &mut self,
        key: K,
        hash: u64,
        ticket: u64,
        outcome: Result<V, E>,
        rounds: &mut ValueInitializer<E>,
    ) -> (r: Result<V, Arc<E>>)
        requires
            old(self).wf(),
        ensures
            final(self).wf(),
            final(self).bits() == old(self).bits(),
            final(self).capacity() == old(self).capacity(),
            completed_in_segment(
                old(self).segments(),
                final(self).segments(),
                old(self).bits(),
                key,
                hash,
                ticket,
                outcome,
                old(rounds).rounds(),
                final(rounds).rounds(),
                r,
            ),
    {
        let i: usize = self.segment_index_from_hash(hash);
        let r = self.segments[i].complete_with_hash(key, hash, ticket, outcome, rounds);
        proof {
            self.lemma_kept(*old(self), i as int);
        }
        r
    }

    /// Invalidates, in every segment, every value that was stored before
    /// now.
    pub fn invalidate_all(&mut self)
        requires
            old(self).wf(),
        ensures
            final(self).wf(),
            final(self).bits() == old(self).bits(),
            final(self).capacity() == old(self).capacity(),
            final(self).segments().len() == old(self).segments().len(),
            forall|i: int|
                #![trigger final(self).segments()[i]]
                0 <= i < old(self).segments().len() ==> {
                    let before = old(self).segments()[i];
                    let after = final(self).segments()[i];
                    &&& after.base().slot_count() == before.base().slot_count()
                    &&& after.base().model() == before.base().model().all_invalidated(
                        after.latest(),
                    )
                    &&& after@ == before@
                    &&& after.latest() >= before.latest()
                    &&& after.base().rules() == (Rules {
                        valid_after: Some(
                            match before.base().rules().valid_after {
                                Some(t) => if t > after.latest() {
                                    t
                                } else {
                                    after.latest()
                                },
                                None => after.latest(),
                            },
                        ),
                        ..before.base().rules()
                    })
                },
    {
        let n: usize = self.segments.len();
        let mut i: usize = 0;
        while i < n
            invariant
                i <= n,
                n == self.segments.len(),
                n == old(self).segments.len(),
                self.bits == old(self).bits,
                self.desired_capacity == old(self).desired_capacity,
                old(self).wf(),
                forall|j: int| 0 <= j < n ==> (#[trigger] self.segments[j]).wf(),
                forall|j: int|
                    0 <= j < n ==> (#[trigger] self.segments[j]).base().same_settings(
                        &old(self).segments[j].base(),
                    ),
                forall|j: int| i <= j < n ==> #[trigger] self.segments[j] == old(self).segments[j],
                forall|j: int|
                    #![trigger self.segments[j]]
                    0 <= j < i ==> {
                        let before = old(self).segments[j];
                        let after = self.segments[j];
                        &&& after.base().slot_count() == before.base().slot_count()
                        &&& after.base().model() == before.base().model().all_invalidated(
                            after.latest(),
                        )
                        &&& after@ == before@
                        &&& after.latest() >= before.latest()
                        &&& after.base().rules() == (Rules {
                            valid_after: Some(
                                match before.base().rules().valid_after {
                                    Some(t) => if t > after.latest() {
                                        t
                                    } else {
                                        after.latest()
                                    },
                                    None => after.latest(),
                                },
                            ),
                            ..before.base().rules()
                        })
                    },
            decreases n - i,
        {
            self.segments[i].invalidate_all();
            i = i + 1;
        }
        proof {
            self.lemma_all_kept(*old(self));
        }
    }

    /// A change of the segments that keeps the settings of each keeps the
    /// cache well formed.
    proof fn lemma_all_kept(&self, before: Self)
        requires
            before.wf(),
            self.bits == before.bits,
            self.desired_capacity == before.desired_capacity,
            self.segments.len() == before.segments.len(),
            forall|j: int| 0 <= j < self.segments.len() ==> (#[trigger] self.segments[j]).wf(),
            forall|j: int|
                0 <= j < self.segments.len() ==> (#[trigger] self.segments[j]).base().same_settings(
                    &before.segments[j].base(),
                ),
        ensures
            self.wf(),
    {
        lemma_segment_of(0, self.bits);
        assert(self.segments[0].base().same_settings(&before.segments[0].base()));
        assert forall|j: int| 0 <= j < self.segments.len() implies (
        #[trigger] self.segments[j]).base().same_settings(&self.segments[0].base()) by {
            assert(self.segments[j].base().same_settings(&before.segments[j].base()));
            assert(before.segments[j].base().same_settings(&before.segments[0].base()));
        }
    }

    /// Invalidates, in every segment, the values stored before now of
    /// which `predicate` holds.
    ///
    /// Fails, and changes nothing, if the cache was built without support
    /// for predicates.
    pub fn invalidate_entries_if<F: Fn(&K, &V) -> bool>(&mut self, predicate: F) -> (r: Result<
        (),
        PredicateError,
    >)
        requires
            old(self).wf(),
            forall|k: K, v: V| call_requires(predicate, (&k, &v)),
        ensures
            final(self).wf(),
            final(self).bits() == old(self).bits(),
            final(self).capacity() == old(self).capacity(),
            final(self).segments().len() == old(self).segments().len(),
            r is Ok <==> old(self).segments()[0].base().predicates_enabled(),
            r is Err ==> r == Err::<(), PredicateError>(PredicateError::PredicatesDisabled),
            total_predicates(final(self).segments(), final(self).segments().len() as int)
                == total_predicates(old(self).segments(), old(self).segments().len() as int) + (
            if r is Ok {
                old(self).segments().len()
            } else {
                0
            }),
            forall|i: int|
                #![trigger final(self).segments()[i]]
                0 <= i < old(self).segments().len() ==> {
                    let before = old(self).segments()[i];
                    let after = final(self).segments()[i];
                    &&& after.latest() >= before.latest()
                    &&& after.base().rules() == before.base().rules()
                    &&& after.base().slot_count() == before.base().slot_count()
                    &&& before.base().model().registered(
                        after.base().model(),
                        predicate,
                        after.latest(),
                        match r {
                            Ok(_) => Ok(before.base().model().next_predicate_id),
                            Err(e) => Err(e),
                        },
                    )
                    &&& r is Ok ==> marked(before@, after@, predicate, after.latest())
                        && after.base().predicate_count() == before.base().predicate_count() + 1
                    &&& r is Err ==> after@ == before@ && after.base().predicate_count()
                        == before.base().predicate_count()
                },
    {
        let n: usize = self.segments.len();
        let mut i: usize = 0;
        let mut failed: bool = false;
        while i < n
            invariant
                i <= n,
                n == self.segments.len(),
                n == old(self).segments.len(),
                self.bits == old(self).bits,
                self.desired_capacity == old(self).desired_capacity,
                old(self).wf(),
                forall|k: K, v: V| call_requires(predicate, (&k, &v)),
                forall|j: int| 0 <= j < n ==> (#[trigger] self.segments[j]).wf(),
                forall|j: int|
                    0 <= j < n ==> (#[trigger] self.segments[j]).base().same_settings(
                        &old(self).segments[j].base(),
                    ),
                forall|j: int| i <= j < n ==> #[trigger] self.segments[j] == old(self).segments[j],
                failed == (i > 0 && !old(self).segments[0].base().predicates_enabled()),
                forall|j: int|
                    #![trigger self.segments[j]]
                    0 <= j < i ==> {
                        let before = old(self).segments[j];
                        let after = self.segments[j];
                        &&& after.latest() >= before.latest()
                        &&& after.base().rules() == before.base().rules()
                        &&& after.base().slot_count() == before.base().slot_count()
                        &&& before.base().model().registered(
                            after.base().model(),
                            predicate,
                            after.latest(),
                            if failed {
                                Err(PredicateError::PredicatesDisabled)
                            } else {
                                Ok(before.base().model().next_predicate_id)
                            },
                        )
                        &&& !failed ==> marked(before@, after@, predicate, after.latest())
                            && after.base().predicate_count() == before.base().predicate_count()
                            + 1
                        &&& failed ==> after@ == before@ && after.base().predicate_count()
                            == before.base().predicate_count()
                    },
            decreases n - i,
        {
            proof {
                assert(old(self).segments[i as int].base().same_settings(
                    &old(self).segments[0].base(),
                ));
            }
            match self.segments[i].invalidate_entries_with_fun(&predicate) {
                Ok(_) => {},
                Err(_) => {
                    failed = true;
                },
            }
            i = i + 1;
        }
        proof {
            lemma_segment_of(0, self.bits);
            self.lemma_all_kept(*old(self));
            lemma_total_predicates_raised(
                old(self).segments@,
                self.segments@,
                n as int,
                if failed {
                    0nat
                } else {
                    1nat
                },
            );
            assert(n * 1 == n) by (nonlinear_arith);
            assert(n * 0 == 0) by (nonlinear_arith);
        }
        if failed {
            Err(PredicateError::PredicatesDisabled)
        } else {
            Ok(())
        }
    }

    /// Runs the housekeeper of every segment until no note of an
    /// operation is waiting.
    ///
    /// Afterwards no segment holds more entries than its share of the
    /// capacity, so the cache holds no more than its capacity.
    pub fn sync(&mut self)
        requires
            old(self).wf(),
        ensures
            final(self).wf(),
            final(self).bits() == old(self).bits(),
            final(self).capacity() == old(self).capacity(),
            final(self).segments().len() == old(self).segments().len(),
            total_entries(final(self).segments(), final(self).segments().len() as int)
                <= final(self).capacity(),
            within_a_batch(old(self).segments()) ==> total_predicates(
                final(self).segments(),
                final(self).segments().len() as int,
            ) == 0,
            forall|i: int|
                #![trigger final(self).segments()[i]]
                0 <= i < old(self).segments().len() ==> {
                    let before = old(self).segments()[i];
                    let after = final(self).segments()[i];
                    &&& after.base().slot_count() == before.base().slot_count()
                    &&& after.base().model() == before.base().model().synced(after.latest())
                    &&& housekept(
                        before@,
                        after@,
                        before.base().rules(),
                        after.latest(),
                        before.base().capacity(),
                    )
                    &&& after@.dom().finite()
                    &&& after@.dom().len() <= after.base().capacity()
                    &&& after.base().pending_reads() == 0
                    &&& after.base().pending_writes() == 0
                    &&& after.latest() >= before.latest()
                    &&& after.base().rules() == before.base().rules()
                    &&& after.base().predicate_count() <= before.base().predicate_count()
                    &&& before.base().slot_count() <= INVALIDATION_BATCH
                        ==> after.base().predicate_count() == 0
                },
    {
        let n: usize = self.segments.len();
        let mut i: usize = 0;
        while i < n
            invariant
                i <= n,
                n == self.segments.len(),
                n == old(self).segments.len(),
                self.bits == old(self).bits,
                self.desired_capacity == old(self).desired_capacity,
                old(self).wf(),
                forall|j: int| 0 <= j < n ==> (#[trigger] self.segments[j]).wf(),
                forall|j: int|
                    0 <= j < n ==> (#[trigger] self.segments[j]).base().same_settings(
                        &old(self).segments[j].base(),
                    ),
                forall|j: int| i <= j < n ==> #[trigger] self.segments[j] == old(self).segments[j],
                forall|j: int|
                    #![trigger self.segments[j]]
                    0 <= j < i ==> {
                        let before = old(self).segments[j];
                        let after = self.segments[j];
                        &&& after.base().slot_count() == before.base().slot_count()
                        &&& after.base().model() == before.base().model().synced(after.latest())
                        &&& housekept(
                            before@,
                            after@,
                            before.base().rules(),
                            after.latest(),
                            before.base().capacity(),
                        )
                        &&& after@.dom().finite()
                        &&& after@.dom().len() <= after.base().capacity()
                        &&& after.base().pending_reads() == 0
                        &&& after.base().pending_writes() == 0
                        &&& after.latest() >= before.latest()
                        &&& after.base().rules() == before.base().rules()
                        &&& after.base().predicate_count() <= before.base().predicate_count()
                        &&& before.base().slot_count() <= INVALIDATION_BATCH
                            ==> after.base().predicate_count() == 0
                    },
            decreases n - i,
        {
            self.segments[i].sync();
            i = i + 1;
        }
        proof {
            self.lemma_all_kept(*old(self));
            lemma_segment_of(0, self.bits);
            let share = (self.desired_capacity / self.segments.len()) as nat;
            assert forall|j: int| 0 <= j < n implies (#[trigger] self.segments[j])@.dom().len()
                <= share by {
                assert(self.segments[j].base().same_settings(&self.segments[0].base()));
            }
            lemma_total_bounded(self.segments@, n as int, share);
            if within_a_batch(old(self).segments()) {
                assert forall|j: int| 0 <= j < n implies (
                #[trigger] self.segments@[j]).base().predicate_count() == 0 by {
                    assert(old(self).segments()[j].base().slot_count() <= INVALIDATION_BATCH);
                }
                lemma_total_predicates_even(self.segments@, n as int, 0);
            }
            crate::laws::law_shares_fit_capacity(self.desired_capacity as nat, n as nat);
        }
    }

    /// The capacity the cache was built with.
    pub fn max_capacity(&self) -> (n: usize)
        ensures
            n == self.capacity(),
    {
        self.desired_capacity
    }

    /// How long a value lives after it was stored.
    pub fn time_to_live(&self) -> (d: Option<Duration>)
        requires
            self.wf(),
        ensures
            d == self.segments()[0].base().live_duration(),
    {
        proof {
            lemma_segment_of(0, self.bits);
        }
        self.segments[0].time_to_live()
    }

    /// How long a value lives after it was last stored or read.
    pub fn time_to_idle(&self) -> (d: Option<Duration>)
        requires
            self.wf(),
        ensures
            d == self.segments()[0].base().idle_duration(),
    {
        proof {
            lemma_segment_of(0, self.bits);
        }
        self.segments[0].time_to_idle()
    }

    /// The number of segments.
    pub fn num_segments(&self) -> (n: usize)
        ensures
            n == self.segments().len(),
    {
        self.segments.len()
    }

    /// The number of entries in all segments, whether or not they can
    /// still be seen; `usize::MAX` if there are more than that.
    pub fn table_size(&self) -> (n: usize)
        requires
            self.wf(),
        ensures
            n == capped(total_entries(self.segments(), self.segments().len() as int)),
    {
        let mut total: usize = 0;
        let count: usize = self.segments.len();
        let mut i: usize = 0;
        while i < count
            invariant
                i <= count,
                count == self.segments.len(),
                self.wf(),
                total == capped(total_entries(self.segments@, i as int)),
            decreases count - i,
        {
            total = total.saturating_add(self.segments[i].table_size());
            i = i + 1;
        }
        total
    }

    /// The number of predicate registrations, over all segments, whose
    /// matches have not all been reaped; `usize::MAX` if there are more
    /// than that.
    pub fn invalidation_predicate_count(&self) -> (n: usize)
        requires
            self.wf(),
        ensures
            n == capped(total_predicates(self.segments(), self.segments().len() as int)),
    {
        let mut total: usize = 0;
        let count: usize = self.segments.len();
        let mut i: usize = 0;
        while i < count
            invariant
                i <= count,
                count == self.segments.len(),
                total == capped(total_predicates(self.segments@, i as int)),
            decreases count - i,
        {
            total = total.saturating_add(self.segments[i].invalidation_predicate_count());
            i = i + 1;
        }
        total
    }

    /// Stops the operations of every segment from running the housekeeper
    /// when the event buffers fill up.
    pub fn reconfigure_for_testing(&mut self)
        requires
            old(self).wf(),
        ensures
            final(self).wf(),
            final(self).bits() == old(self).bits(),
            final(self).capacity() == old(self).capacity(),
            final(self).segments().len() == old(self).segments().len(),
            forall|i: int|
                #![trigger final(self).segments()[i]]
                0 <= i < old(self).segments().len() ==> {
                    let before = old(self).segments()[i];
                    let after = final(self).segments()[i];
                    &&& after.base().slot_count() == before.base().slot_count()
                    &&& after.base().predicate_count() == before.base().predicate_count()
                    &&& after.base().model() == before.base().model().muted()
                    &&& after@ == before@
                    &&& after.latest() == before.latest()
                    &&& after.base().rules() == before.base().rules()
                    &&& !after.base().is_opportunistic()
                },
    {
        let n: usize = self.segments.len();
        let mut i: usize = 0;
        while i < n
            invariant
                i <= n,
                n == self.segments.len(),
                n == old(self).segments.len(),
                self.bits == old(self).bits,
                self.desired_capacity == old(self).desired_capacity,
                old(self).wf(),
                forall|j: int| 0 <= j < n ==> (#[trigger] self.segments[j]).wf(),
                forall|j: int| i <= j < n ==> #[trigger] self.segments[j] == old(self).segments[j],
                forall|j: int|
                    #![trigger self.segments[j]]
                    0 <= j < i ==> {
                        let before = old(self).segments[j];
                        let after = self.segments[j];
                        &&& after.base().slot_count() == before.base().slot_count()
                        &&& after.base().predicate_count() == before.base().predicate_count()
                        &&& after.base().model() == before.base().model().muted()
                        &&& after@ == before@
                        &&& after.latest() == before.latest()
                        &&& after.base().rules() == before.base().rules()
                        &&& after.base().capacity() == before.base().capacity()
                        &&& after.base().live_duration() == before.base().live_duration()
                        &&& after.base().idle_duration() == before.base().idle_duration()
                        &&& after.base().predicates_enabled() == before.base().predicates_enabled()
                        &&& !after.base().is_opportunistic()
                    },
            decreases n - i,
        {
            self.segments[i].reconfigure_for_testing();
            i = i + 1;
        }
        proof {
            lemma_segment_of(0, self.bits);
            assert forall|j: int| 0 <= j < self.segments.len() implies (
            #[trigger] self.segments[j]).base().same_settings(&self.segments[0].base()) by {
                assert(old(self).segments[j].base().same_settings(&old(self).segments[0].base()));
            }
        }
    }

    /// Makes every segment read the time from the time source of `clock`,
    /// or from the machine's clock if none is given.  The time of every
    /// segment goes on from where it was.
    pub fn set_expiration_clock(&mut self, clock: Option<Clock>)
        requires
            old(self).wf(),
        ensures
            final(self).wf(),
            final(self).bits() == old(self).bits(),
            final(self).capacity() == old(self).capacity(),
            final(self).segments().len() == old(self).segments().len(),
            forall|i: int|
                #![trigger final(self).segments()[i]]
                0 <= i < old(self).segments().len() ==> {
                    let before = old(self).segments()[i];
                    let after = final(self).segments()[i];
                    &&& after@ == before@
                    &&& after.base() == before.base()
                    &&& after.latest() == before.latest()
                    &&& clock is Some ==> after.clock() == clock->0
                },
    {
        let n: usize = self.segments.len();
        let mut i: usize = 0;
        while i < n
            invariant
                i <= n,
                n == self.segments.len(),
                n == old(self).segments.len(),
                self.bits == old(self).bits,
                self.desired_capacity == old(self).desired_capacity,
                old(self).wf(),
                forall|j: int| 0 <= j < n ==> (#[trigger] self.segments[j]).wf(),
                forall|j: int| i <= j < n ==> #[trigger] self.segments[j] == old(self).segments[j],
                forall|j: int|
                    0 <= j < n ==> (#[trigger] self.segments[j]).base() == old(self).segments[j].base(),
                forall|j: int|
                    #![trigger self.segments[j]]
                    0 <= j < i ==> {
                        let before = old(self).segments[j];
                        let after = self.segments[j];
                        &&& after@ == before@
                        &&& after.latest() == before.latest()
                        &&& clock is Some ==> after.clock() == clock->0
                    },
            decreases n - i,
        {
            let shared: Option<Clock> = match &clock {
                Some(c) => Some(share_clock(c)),
                None => None,
            };
            self.segments[i].set_expiration_clock(shared);
            i = i + 1;
        }
        proof {
            lemma_segment_of(0, self.bits);
            assert forall|j: int| 0 <= j < self.segments.len() implies (
            #[trigger] self.segments[j]).base().same_settings(&self.segments[0].base()) by {
                assert(old(self).segments[j].base().same_settings(&old(self).segments[0].base()));
            }
        }
    }
}

/// Whether no segment has more slots than the scan of a predicate visits
/// in one pass of the housekeeper.
pub open spec fn within_a_batch<K: Hash + Eq, V, S>(segments: Seq<Cache<K, V, S>>) -> bool {
    forall|i: int|
        0 <= i < segments.len() ==> (#[trigger] segments[i]).base().slot_count()
            <= INVALIDATION_BATCH
}

/// `n`, or `usize::MAX` if `n` is larger.
pub open spec fn capped(n: nat) -> usize {
    if n > usize::MAX {
        usize::MAX
    } else {
        n as usize
    }
}

/// The number of entries in the first `upto` segments.
pub open spec fn total_entries<K: Hash + Eq, V, S>(segments: Seq<Cache<K, V, S>>, upto: int) -> nat
    decreases upto,
{
    if upto <= 0 {
        0
    } else {
        total_entries(segments, upto - 1) + segments[upto - 1]@.dom().len()
    }
}

/// Segments that each hold no more than `share` entries hold no more than
/// their number times `share` together.
pub proof fn lemma_total_bounded<K: Hash + Eq, V, S>(
    segments: Seq<Cache<K, V, S>>,
    upto: int,
    share: nat,
)
    requires
        0 <= upto <= segments.len(),
        forall|j: int| 0 <= j < upto ==> (#[trigger] segments[j])@.dom().len() <= share,
    ensures
        total_entries(segments, upto) <= upto * share,
    decreases upto,
{
    if upto > 0 {
        lemma_total_bounded(segments, upto - 1, share);
        assert(segments[upto - 1]@.dom().len() <= share);
        assert(upto * share == (upto - 1) * share + share) by (nonlinear_arith);
    }
}

/// Segments that each hold `each` predicate registrations hold their
/// number times `each` together.
pub proof fn lemma_total_predicates_even<K: Hash + Eq, V, S>(
    segments: Seq<Cache<K, V, S>>,
    upto: int,
    each: nat,
)
    requires
        0 <= upto <= segments.len(),
        forall|j: int| 0 <= j < upto ==> (#[trigger] segments[j]).base().predicate_count() == each,
    ensures
        total_predicates(segments, upto) == upto * each,
    decreases upto,
{
    if upto > 0 {
        lemma_total_predicates_even(segments, upto - 1, each);
        assert(segments[upto - 1].base().predicate_count() == each);
        assert(upto * each == (upto - 1) * each + each) by (nonlinear_arith);
    } else {
        assert(upto * each == 0) by (nonlinear_arith)
            requires
                upto == 0,
        ;
    }
}

/// If every segment gains `by` predicate registrations, all together gain
/// their number times `by`.
pub proof fn lemma_total_predicates_raised<K: Hash + Eq, V, S>(
    before: Seq<Cache<K, V, S>>,
    after: Seq<Cache<K, V, S>>,
    upto: int,
    by: nat,
)
    requires
        0 <= upto <= before.len(),
        after.len() == before.len(),
        forall|j: int|
            0 <= j < upto ==> (#[trigger] after[j]).base().predicate_count()
                == before[j].base().predicate_count() + by,
    ensures
        total_predicates(after, upto) == total_predicates(before, upto) + upto * by,
    decreases upto,
{
    if upto > 0 {
        lemma_total_predicates_raised(before, after, upto - 1, by);
        assert(after[upto - 1].base().predicate_count() == before[upto - 1].base().predicate_count()
            + by);
        assert(upto * by == (upto - 1) * by + by) by (nonlinear_arith);
    } else {
        assert(upto * by == 0) by (nonlinear_arith)
            requires
                upto == 0,
        ;
    }
}

/// A number of segments that is a power of two is not rounded.
pub proof fn lemma_segments_for_power(exponent: u32, bits: u32)
    requires
        bits <= exponent <= 30,
    ensures
        bits_for((1u64 << exponent) as nat, bits) == exponent,
        bits == 0 ==> segments_for((1u64 << exponent) as nat) == (1u64 << exponent),
    decreases exponent - bits,
{
    let e: u64 = exponent as u64;
    let b: u64 = bits as u64;
    if bits < exponent {
        assert(b < e <= 30 ==> (1u64 << b) < (1u64 << e)) by (bit_vector);
        lemma_segments_for_power(exponent, (bits + 1) as u32);
    }
}

/// The number of predicate registrations in the first `upto` segments.
pub open spec fn total_predicates<K: Hash + Eq, V, S>(
    segments: Seq<Cache<K, V, S>>,
    upto: int,
) -> nat
    decreases upto,
{
    if upto <= 0 {
        0
    } else {
        total_predicates(segments, upto - 1) + segments[upto - 1].base().predicate_count()
    }
}

} // verus!
