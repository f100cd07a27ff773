//! The entry store: numbered slots that hold the cached entries, and a
//! hash index that finds the slot of a key.
//!
//! A key is always presented together with its 64-bit hash, and the pair is
//! what identifies an entry.  The index chains the slots of each hash
//! bucket; a lookup walks one chain and compares hashes, then keys.
//!
//! A slot is vacant, occupied by an entry, or retired: an entry that was
//! invalidated leaves its key and value at once, but its slot number stays
//! reserved until the housekeeper has dropped it from the policy queues.

use vstd::prelude::*;
use vstd::std_specs::cmp::PartialEqSpec;
use crate::order::lemma_distinct_bounded;
use crate::order::lemma_without;
use crate::order::without;

verus! {

/// The largest number of hash buckets an index will allocate.
pub const MAX_BUCKETS: usize = 0x1_0000;

/// The smallest number of hash buckets an index will allocate.
pub const MIN_BUCKETS: usize = 16;

/// The executable `==` of the key type decides whether two keys are the
/// same value.
pub open spec fn keys_compare_by_value<K: PartialEq>() -> bool {
    &&& K::obeys_eq_spec()
    &&& forall|a: K, b: K| #[trigger] a.eq_spec(&b) <==> (a == b)
}

/// A cached entry.
pub struct Entry<K, V> {
    pub key: K,
    pub hash: u64,
    pub value: V,
    /// Tells this tenant of a slot from earlier and later ones.
    pub stamp: u64,
    /// When the value was written.
    pub modified: u64,
    /// When the entry was last written or read.
    pub accessed: u64,
    /// Whether the entry has left the admission window for the main space.
    pub admitted: bool,
    /// Whether an invalidation predicate matched the entry.
    pub invalidated: bool,
}

/// One numbered place of the store.
pub enum Slot<K, V> {
    Vacant,
    Occupied(Entry<K, V>),
    /// The entry with this stamp was invalidated; the slot awaits release.
    Retired(u64),
}

/// The bucket of `hash` in an index of `buckets` buckets.
pub open spec fn bucket_of(hash: u64, buckets: nat) -> int {
    (hash & ((buckets - 1) as u64)) as int
}

/// The slot that the next new entry takes: the vacant slot that was freed
/// last, or a new slot at the end if none is vacant.
pub open spec fn next_slot(free: Seq<usize>, slots: nat) -> usize {
    if free.len() > 0 {
        free[free.len() - 1]
    } else {
        slots as usize
    }
}

/// `slots` with `x` at `s`: in place, or appended when `s` is the length.
pub open spec fn placed<K, V>(slots: Seq<Slot<K, V>>, s: int, x: Slot<K, V>) -> Seq<Slot<K, V>> {
    if s < slots.len() {
        slots.update(s, x)
    } else {
        slots.push(x)
    }
}

proof fn lemma_bucket_bounds(shift: u64)
    requires
        4 <= shift <= 16,
    ensures
        MIN_BUCKETS <= (1u64 << shift) <= MAX_BUCKETS,
{
    assert(4 <= shift <= 16 ==> 16 <= (1u64 << shift) <= 0x1_0000) by (bit_vector);
}

proof fn lemma_bucket_of(hash: u64, buckets: usize)
    requires
        0 < buckets,
    ensures
        0 <= bucket_of(hash, buckets as nat) < buckets,
{
    let k: u64 = (buckets - 1) as u64;
    assert(hash & k <= k) by (bit_vector);
}

/// The slots of the entries and the index over them.
#[verifier::reject_recursive_types(K)]
pub struct Table<K, V> {
    slots: Vec<Slot<K, V>>,
    free: Vec<usize>,
    buckets: Vec<Vec<usize>>,
    live: usize,
    next_stamp: u64,
    index: Ghost<Map<(K, u64), usize>>,
    roster: Ghost<Seq<usize>>,
}

impl<K: PartialEq, V> Table<K, V> {
    /// All slots, by number.
    pub closed spec fn slots(&self) -> Seq<Slot<K, V>> {
        self.slots@
    }

    /// The slot of each key and hash that has an entry.
    pub closed spec fn index(&self) -> Map<(K, u64), usize> {
        self.index@
    }

    /// The occupied slots, each once.
    pub closed spec fn roster(&self) -> Seq<usize> {
        self.roster@
    }

    /// The stamp that the next new entry receives.
    pub closed spec fn next_stamp(&self) -> u64 {
        self.next_stamp
    }

    /// The vacant slots that wait to be used again, the next one last.
    pub closed spec fn free(&self) -> Seq<usize> {
        self.free@
    }

    /// The entry of each key and hash that has one.
    pub open spec fn records(&self) -> Map<(K, u64), Entry<K, V>> {
        Map::new(
            |id: (K, u64)| self.index().contains_key(id),
            |id: (K, u64)| self.slots()[self.index()[id] as int]->Occupied_0,
        )
    }

    spec fn chains_ok(&self) -> bool {
        &&& forall|b: int, j: int|
            0 <= b < self.buckets.len() && 0 <= j < self.buckets[b].len() ==> {
                let s = #[trigger] self.buckets[b][j];
                &&& s < self.slots.len()
                &&& self.slots[s as int] is Occupied
                &&& bucket_of(self.slots[s as int]->Occupied_0.hash, self.buckets.len() as nat)
                    == b
            }
        &&& forall|b: int| 0 <= b < self.buckets.len() ==> (#[trigger] self.buckets[b])@.no_duplicates()
    }

    spec fn slots_ok(&self) -> bool {
        forall|s: int|
            0 <= s < self.slots.len() && (#[trigger] self.slots[s]) is Occupied ==> {
                let e = self.slots[s]->Occupied_0;
                &&& self.roster@.contains(s as usize)
                &&& self.index@.contains_key((e.key, e.hash))
                &&& self.index@[(e.key, e.hash)] == s
                &&& self.buckets[bucket_of(e.hash, self.buckets.len() as nat)]@.contains(
                    s as usize,
                )
            }
    }

    spec fn index_ok(&self) -> bool {
        &&& self.index@.dom().finite()
        &&& self.live == self.index@.dom().len()
        &&& forall|id: (K, u64)| #[trigger]
            self.index@.contains_key(id) ==> {
                let s = self.index@[id];
                &&& s < self.slots.len()
                &&& self.slots[s as int] is Occupied
                &&& self.slots[s as int]->Occupied_0.key == id.0
                &&& self.slots[s as int]->Occupied_0.hash == id.1
            }
    }

    spec fn roster_ok(&self) -> bool {
        &&& self.live == self.roster@.len()
        &&& self.roster@.no_duplicates()
        &&& forall|i: int|
            0 <= i < self.roster@.len() ==> {
                let s = #[trigger] self.roster@[i];
                &&& s < self.slots.len()
                &&& self.slots[s as int] is Occupied
            }
    }

    spec fn free_ok(&self) -> bool {
        &&& self.free@.no_duplicates()
        &&& forall|j: int|
            0 <= j < self.free.len() ==> {
                let s = #[trigger] self.free[j];
                &&& s < self.slots.len()
                &&& self.slots[s as int] is Vacant
            }
    }

    /// The index, the chains and the slots agree with one another.
    pub closed spec fn wf(&self) -> bool {
        &&& keys_compare_by_value::<K>()
        &&& 0 < self.buckets.len() <= MAX_BUCKETS
        &&& self.chains_ok()
        &&& self.slots_ok()
        &&& self.index_ok()
        &&& self.roster_ok()
        &&& self.free_ok()
    }

    /// What `wf` says of the index, the roster and the slots.
    pub proof fn lemma_wf(&self)
        requires
            self.wf(),
        ensures
            keys_compare_by_value::<K>(),
            self.index().dom().finite(),
            self.roster().no_duplicates(),
            self.roster().len() == self.index().dom().len(),
            self.roster().len() <= self.slots().len(),
            self.slots().len() <= usize::MAX,
            forall|id: (K, u64)| #[trigger]
                self.index().contains_key(id) ==> {
                    let s = self.index()[id];
                    &&& s < self.slots().len()
                    &&& self.slots()[s as int] is Occupied
                    &&& self.slots()[s as int]->Occupied_0.key == id.0
                    &&& self.slots()[s as int]->Occupied_0.hash == id.1
                },
            forall|s: int|
                0 <= s < self.slots().len() && (#[trigger] self.slots()[s]) is Occupied ==> {
                    let e = self.slots()[s]->Occupied_0;
                    &&& self.roster().contains(s as usize)
                    &&& self.index().contains_key((e.key, e.hash))
                    &&& self.index()[(e.key, e.hash)] == s
                },
            forall|i: int|
                0 <= i < self.roster().len() ==> {
                    let s = #[trigger] self.roster()[i];
                    &&& s < self.slots().len()
                    &&& self.slots()[s as int] is Occupied
                },
    {
        lemma_distinct_bounded(self.roster@, self.slots.len() as nat);
    }

    /// An empty store whose index is sized for `capacity` entries.
    pub fn new(capacity: usize) -> (t: Self)
        requires
            keys_compare_by_value::<K>(),
        ensures
            t.wf(),
            t.slots().len() == 0,
            t.index() == Map::<(K, u64), usize>::empty(),
            t.roster().len() == 0,
            t.free().len() == 0,
            t.next_stamp() == 0,
    {
        let mut shift: u64 = 4;
        proof {
            lemma_bucket_bounds(shift);
        }
        while shift < 16 && ((1u64 << shift) as usize) < capacity
            invariant
                4 <= shift <= 16,
                MIN_BUCKETS <= (1u64 << shift) <= MAX_BUCKETS,
            decreases 16 - shift,
        {
            shift = shift + 1;
            proof {
                lemma_bucket_bounds(shift);
            }
        }
        let n: usize = (1u64 << shift) as usize;
        let mut buckets: Vec<Vec<usize>> = Vec::new();
        let mut i: usize = 0;
        while i < n
            invariant
                i <= n,
                buckets.len() == i,
                forall|b: int| 0 <= b < i ==> (#[trigger] buckets[b])@.len() == 0,
            decreases n - i,
        {
            buckets.push(Vec::new());
            i = i + 1;
        }
        let t = Table {
            slots: Vec::new(),
            free: Vec::new(),
            buckets,
            live: 0,
            next_stamp: 0,
            index: Ghost(Map::empty()),
            roster: Ghost(Seq::empty()),
        };
        proof {
            assert(t.index@.dom() =~= Set::<(K, u64)>::empty());
        }
        t
    }

    /// The number of entries.
    pub fn len(&self) -> (n: usize)
        requires
            self.wf(),
        ensures
            n == self.index().dom().len(),
            n == self.roster().len(),
    {
        self.live
    }

    /// The number of slots, vacant ones included.
    pub fn slot_count(&self) -> (n: usize)
        ensures
            n == self.slots().len(),
    {
        self.slots.len()
    }

    fn bucket_index(&self, hash: u64) -> (b: usize)
        requires
            0 < self.buckets.len(),
        ensures
            b == bucket_of(hash, self.buckets.len() as nat),
            b < self.buckets.len(),
    {
        proof {
            lemma_bucket_of(hash, self.buckets.len());
        }
        (hash & ((self.buckets.len() - 1) as u64)) as usize
    }

    /// The slot of the entry of `key` and `hash`, if there is one.
    pub fn find(&self, key: &K, hash: u64) -> (r: Option<usize>)
        requires
            self.wf(),
        ensures
            match r {
                Some(s) => self.index().contains_key((*key, hash)) && self.index()[(*key, hash)]
                    == s,
                None => !self.index().contains_key((*key, hash)),
            },
    {
        let b: usize = self.bucket_index(hash);
        let n: usize = self.buckets[b].len();
        let mut j: usize = 0;
        while j < n
            invariant
                self.wf(),
                b == bucket_of(hash, self.buckets.len() as nat),
                b < self.buckets.len(),
                n == self.buckets[b as int].len(),
                j <= n,
                forall|i: int|
                    0 <= i < j ==> {
                        let e = self.slots[(#[trigger] self.buckets[b as int][i]) as int]->Occupied_0;
                        !(e.key == *key && e.hash == hash)
                    },
            decreases n - j,
        {
            let s: usize = self.buckets[b][j];
            match &self.slots[s] {
                Slot::Occupied(e) => {
                    if e.hash == hash && e.key == *key {
                        return Some(s);
                    }
                },
                _ => {},
            }
            j = j + 1;
        }
        proof {
            if self.index@.contains_key((*key, hash)) {
                let s = self.index@[(*key, hash)];
                assert(self.slots[s as int] is Occupied);
                assert(self.buckets[b as int]@.contains(s));
                let i = self.buckets[b as int]@.index_of(s);
                assert(self.buckets[b as int][i] == s);
            }
        }
        None
    }

    /// The entry in `slot`, if the slot is occupied.
    pub fn peek(&self, slot: usize) -> (r: Option<&Entry<K, V>>)
        ensures
            match r {
                Some(e) => slot < self.slots().len() && self.slots()[slot as int] == Slot::Occupied(
                    *e,
                ),
                None => !(slot < self.slots().len() && self.slots()[slot as int] is Occupied),
            },
    {
        if slot < self.slots.len() {
            match &self.slots[slot] {
                Slot::Occupied(e) => Some(e),
                _ => None,
            }
        } else {
            None
        }
    }

    /// The stamp of the entry that retired from `slot`, if the slot is
    /// retired.
    pub fn retired_stamp(&self, slot: usize) -> (r: Option<u64>)
        ensures
            match r {
                Some(stamp) => slot < self.slots().len() && self.slots()[slot as int]
                    == Slot::<K, V>::Retired(stamp),
                None => !(slot < self.slots().len() && self.slots()[slot as int] is Retired),
            },
    {
        if slot < self.slots.len() {
            match &self.slots[slot] {
                Slot::Retired(stamp) => Some(*stamp),
                _ => None,
            }
        } else {
            None
        }
    }

    /// Stores a new entry and returns its slot.
    pub fn insert_new(&mut self, key: K, hash: u64, value: V, now: u64) -> (s: usize)
        requires
            old(self).wf(),
            !old(self).index().contains_key((key, hash)),
        ensures
            final(self).wf(),
            s == next_slot(old(self).free(), old(self).slots().len()),
            final(self).free() == (if old(self).free().len() > 0 {
                old(self).free().drop_last()
            } else {
                old(self).free()
            }),
            s <= old(self).slots().len(),
            s < old(self).slots().len() ==> old(self).slots()[s as int] is Vacant,
            final(self).slots() == placed(
                old(self).slots(),
                s as int,
                Slot::Occupied(
                    Entry {
                        key,
                        hash,
                        value,
                        stamp: old(self).next_stamp(),
                        modified: now,
                        accessed: now,
                        admitted: false,
                        invalidated: false,
                    },
                ),
            ),
            final(self).index() == old(self).index().insert((key, hash), s),
            final(self).roster() == old(self).roster().push(s),
            final(self).next_stamp() == old(self).next_stamp().wrapping_add(1),
            final(self).records() == old(self).records().insert(
                (key, hash),
                Entry {
                    key,
                    hash,
                    value,
                    stamp: old(self).next_stamp(),
                    modified: now,
                    accessed: now,
                    admitted: false,
                    invalidated: false,
                },
            ),
    {
        let stamp: u64 = self.next_stamp;
        self.next_stamp = self.next_stamp.wrapping_add(1);
        let b: usize = self.bucket_index(hash);
        let ghost id = (key, hash);
        let entry = Entry {
            key,
            hash,
            value,
            stamp,
            modified: now,
            accessed: now,
            admitted: false,
            invalidated: false,
        };
        let ghost before = *old(self);
        let s: usize = match self.free.pop() {
            Some(s) => {
                proof {
                    assert(before.free[before.free.len() - 1] == s);
                    assert(before.slots[s as int] is Vacant);
                }
                self.slots[s] = Slot::Occupied(entry);
                s
            },
            None => {
                let s: usize = self.slots.len();
                self.slots.push(Slot::Occupied(entry));
                s
            },
        };
        self.buckets[b].push(s);
        proof {
            assert(!before.roster@.contains(s)) by {
                if before.roster@.contains(s) {
                    let i = before.roster@.index_of(s);
                    assert(before.roster@[i] == s);
                }
            }
            let roster = before.roster@.push(s);
            assert(roster.no_duplicates()) by {
                assert forall|i: int, j: int|
                    0 <= i < roster.len() && 0 <= j < roster.len() && i != j implies roster[i]
                    != roster[j] by {
                    if i < before.roster@.len() {
                        assert(before.roster@.contains(roster[i]));
                    }
                    if j < before.roster@.len() {
                        assert(before.roster@.contains(roster[j]));
                    }
                }
            }
            assert forall|i: int| 0 <= i < roster.len() implies #[trigger] roster[i]
                < self.slots.len() by {
                if i < before.roster@.len() {
                    assert(before.roster@[i] < before.slots.len());
                }
            }
            lemma_distinct_bounded(roster, self.slots.len() as nat);
            self.roster@ = roster;
            self.index@ = before.index@.insert(id, s);
        }
        self.live = self.live + 1;
        proof {
            assert(self.chains_ok()) by {
                assert forall|c: int, j: int|
                    0 <= c < self.buckets.len() && 0 <= j < self.buckets[c].len() implies {
                    let t = #[trigger] self.buckets[c][j];
                    &&& t < self.slots.len()
                    &&& self.slots[t as int] is Occupied
                    &&& bucket_of(
                        self.slots[t as int]->Occupied_0.hash,
                        self.buckets.len() as nat,
                    ) == c
                } by {
                    if c == b && j == before.buckets[c].len() {
                    } else {
                        let t = before.buckets[c][j];
                        assert(self.buckets[c][j] == t);
                        assert(before.slots[t as int] is Occupied);
                        assert(t != s);
                    }
                }
                assert forall|c: int| 0 <= c < self.buckets.len() implies (
                #[trigger] self.buckets[c])@.no_duplicates() by {
                    assert(before.buckets[c]@.no_duplicates());
                    if c == b {
                        let chain = self.buckets[c]@;
                        assert forall|i: int, j: int|
                            0 <= i < chain.len() && 0 <= j < chain.len() && i != j implies chain[i]
                            != chain[j] by {
                            if i < chain.len() - 1 {
                                let t = before.buckets[c][i];
                                assert(before.slots[t as int] is Occupied);
                            }
                            if j < chain.len() - 1 {
                                let t = before.buckets[c][j];
                                assert(before.slots[t as int] is Occupied);
                            }
                        }
                    }
                }
            }
            assert(self.slots_ok()) by {
                assert forall|t: int|
                    0 <= t < self.slots.len() && (#[trigger] self.slots[t]) is Occupied implies {
                    let e = self.slots[t]->Occupied_0;
                    &&& self.roster@.contains(t as usize)
                    &&& self.index@.contains_key((e.key, e.hash))
                    &&& self.index@[(e.key, e.hash)] == t
                    &&& self.buckets[bucket_of(e.hash, self.buckets.len() as nat)]@.contains(
                        t as usize,
                    )
                } by {
                    if t == s {
                        assert(self.roster@[self.roster@.len() - 1] == s);
                        assert(self.buckets[b as int]@[self.buckets[b as int].len() - 1] == s);
                    } else {
                        assert(before.slots[t] is Occupied);
                        let e = before.slots[t]->Occupied_0;
                        let i = before.roster@.index_of(t as usize);
                        assert(before.roster@[i] == t);
                        assert(self.roster@[i] == t);
                        let c = bucket_of(e.hash, self.buckets.len() as nat);
                        lemma_bucket_of(e.hash, self.buckets.len());
                        let j = before.buckets[c]@.index_of(t as usize);
                        assert(before.buckets[c]@[j] == t);
                        assert(self.buckets[c]@[j] == t);
                        assert((e.key, e.hash) != id);
                    }
                }
            }
            assert(self.index_ok()) by {
                assert(self.index@.dom() =~= before.index@.dom().insert(id));
                assert forall|x: (K, u64)| #[trigger] self.index@.contains_key(x) implies {
                    let t = self.index@[x];
                    &&& t < self.slots.len()
                    &&& self.slots[t as int] is Occupied
                    &&& self.slots[t as int]->Occupied_0.key == x.0
                    &&& self.slots[t as int]->Occupied_0.hash == x.1
                } by {
                    if x != id {
                        assert(before.index@.contains_key(x));
                        assert(before.index@[x] != s);
                    }
                }
            }
            assert(self.roster_ok());
            assert(self.free_ok()) by {
                assert forall|j: int| 0 <= j < self.free.len() implies {
                    let t = #[trigger] self.free[j];
                    &&& t < self.slots.len()
                    &&& self.slots[t as int] is Vacant
                } by {
                    assert(before.free[j] == self.free[j]);
                    if before.free.len() > self.free.len() {
                        assert(before.free[before.free.len() - 1] == s);
                        assert(self.free[j] != s);
                    }
                }
                assert forall|i: int, j: int|
                    0 <= i < self.free.len() && 0 <= j < self.free.len() && i != j implies self.free[i]
                    != self.free[j] by {
                    assert(before.free[i] == self.free[i]);
                    assert(before.free[j] == self.free[j]);
                }
            }
            assert(self.slots@ =~= placed(before.slots@, s as int, self.slots[s as int]));
            assert(self.records() =~= before.records().insert(id, self.slots[s as int]->Occupied_0))
                by {
                assert forall|x: (K, u64)| self.records().contains_key(x) implies self.records()[x]
                    == before.records().insert(id, self.slots[s as int]->Occupied_0)[x] by {
                    if x != id {
                        assert(before.index@.contains_key(x));
                        assert(before.index@[x] != s);
                    }
                }
            }
        }
        s
    }

    /// Unbinds the entry in `slot` from the index and leaves `left` there.
    fn detach(&mut self, slot: usize, left: Slot<K, V>) -> (e: Entry<K, V>)
        requires
            old(self).wf(),
            slot < old(self).slots().len(),
            old(self).slots()[slot as int] is Occupied,
            left is Retired,
        ensures
            final(self).chains_ok(),
            final(self).slots_ok(),
            final(self).index_ok(),
            final(self).roster_ok(),
            final(self).buckets.len() == old(self).buckets.len(),
            final(self).free == old(self).free,
            final(self).next_stamp == old(self).next_stamp,
            old(self).slots()[slot as int] == Slot::Occupied(e),
            final(self).slots() == old(self).slots().update(slot as int, left),
            final(self).index() == old(self).index().remove((e.key, e.hash)),
            final(self).roster() == without(old(self).roster(), slot),
            final(self).records() == old(self).records().remove((e.key, e.hash)),
    {
        let ghost before = *old(self);
        let mut taken: Slot<K, V> = left;
        std::mem::swap(&mut taken, &mut self.slots[slot]);
        let e: Entry<K, V> = match taken {
            Slot::Occupied(e) => e,
            _ => {
                proof {
                    assert(false);
                }
                loop
                    invariant
                        false,
                    decreases 0int,
                {
                }
            },
        };
        let b: usize = self.bucket_index(e.hash);
        let ghost id = (e.key, e.hash);
        proof {
            assert(before.slots[slot as int] is Occupied);
            assert(before.buckets[b as int]@.contains(slot));
        }
        let n: usize = self.buckets[b].len();
        let mut j: usize = 0;
        while j < n && self.buckets[b][j] != slot
            invariant
                j <= n,
                b < self.buckets.len(),
                n == self.buckets[b as int].len(),
                self.buckets == before.buckets,
                forall|i: int| 0 <= i < j ==> self.buckets[b as int][i] != slot,
                before.buckets[b as int]@.contains(slot),
            decreases n - j,
        {
            j = j + 1;
        }
        proof {
            let i = before.buckets[b as int]@.index_of(slot);
            assert(before.buckets[b as int]@[i] == slot);
            assert(j < n);
            assert(before.buckets[b as int]@.no_duplicates());
            assert(j == i);
        }
        self.buckets[b].remove(j);
        self.live = self.live - 1;
        proof {
            lemma_without(before.roster@, slot);
            self.roster@ = without(before.roster@, slot);
            self.index@ = before.index@.remove(id);
            assert(before.index@.contains_key(id));
            assert(self.index@.dom() =~= before.index@.dom().remove(id));
            let chain0 = before.buckets[b as int]@;
            let chain = self.buckets[b as int]@;
            assert(chain == chain0.remove(j as int));
            assert(chain == without(chain0, slot));
            lemma_without(chain0, slot);
            assert(self.chains_ok()) by {
                assert forall|c: int, k: int|
                    0 <= c < self.buckets.len() && 0 <= k < self.buckets[c].len() implies {
                    let t = #[trigger] self.buckets[c][k];
                    &&& t < self.slots.len()
                    &&& self.slots[t as int] is Occupied
                    &&& bucket_of(
                        self.slots[t as int]->Occupied_0.hash,
                        self.buckets.len() as nat,
                    ) == c
                } by {
                    if c == b {
                        let t = chain[k];
                        assert(chain.contains(t));
                        assert(t != slot);
                        assert(chain0.contains(t));
                        let k0 = chain0.index_of(t);
                        assert(before.buckets[c][k0] == t);
                    } else {
                        let t = before.buckets[c][k];
                        assert(self.buckets[c][k] == t);
                        assert(bucket_of(
                            before.slots[t as int]->Occupied_0.hash,
                            before.buckets.len() as nat,
                        ) == c);
                        assert(t != slot);
                    }
                }
                assert forall|c: int| 0 <= c < self.buckets.len() implies (
                #[trigger] self.buckets[c])@.no_duplicates() by {
                    assert(before.buckets[c]@.no_duplicates());
                }
            }
            assert(self.slots_ok()) by {
                assert forall|t: int|
                    0 <= t < self.slots.len() && (#[trigger] self.slots[t]) is Occupied implies {
                    let x = self.slots[t]->Occupied_0;
                    &&& self.roster@.contains(t as usize)
                    &&& self.index@.contains_key((x.key, x.hash))
                    &&& self.index@[(x.key, x.hash)] == t
                    &&& self.buckets[bucket_of(x.hash, self.buckets.len() as nat)]@.contains(
                        t as usize,
                    )
                } by {
                    assert(t != slot);
                    assert(before.slots[t] is Occupied);
                    let x = before.slots[t]->Occupied_0;
                    assert(before.roster@.contains(t as usize));
                    assert(before.index@[(x.key, x.hash)] == t);
                    assert((x.key, x.hash) != id);
                    let c = bucket_of(x.hash, self.buckets.len() as nat);
                    lemma_bucket_of(x.hash, self.buckets.len());
                    assert(before.buckets[c]@.contains(t as usize));
                    if c == b {
                        assert(chain.contains(t as usize));
                    } else {
                        assert(self.buckets[c] == before.buckets[c]);
                    }
                }
            }
            assert(self.index_ok()) by {
                assert forall|x: (K, u64)| #[trigger] self.index@.contains_key(x) implies {
                    let t = self.index@[x];
                    &&& t < self.slots.len()
                    &&& self.slots[t as int] is Occupied
                    &&& self.slots[t as int]->Occupied_0.key == x.0
                    &&& self.slots[t as int]->Occupied_0.hash == x.1
                } by {
                    assert(before.index@.contains_key(x));
                    let t = before.index@[x];
                    if t == slot {
                        assert(before.slots[t as int]->Occupied_0.key == x.0);
                        assert(x == id);
                    }
                }
            }
            assert(self.roster_ok()) by {
                let roster = self.roster@;
                assert forall|i: int| 0 <= i < roster.len() implies {
                    let t = #[trigger] roster[i];
                    &&& t < self.slots.len()
                    &&& self.slots[t as int] is Occupied
                } by {
                    let t = roster[i];
                    assert(roster.contains(t));
                    assert(t != slot);
                    assert(before.roster@.contains(t));
                    let i0 = before.roster@.index_of(t);
                    assert(before.roster@[i0] == t);
                }
            }
            assert(self.records() =~= before.records().remove(id)) by {
                assert forall|x: (K, u64)| self.records().contains_key(x) implies self.records()[x]
                    == before.records().remove(id)[x] by {
                    assert(before.index@.contains_key(x));
                    let t = before.index@[x];
                    if t == slot {
                        assert(before.slots[t as int]->Occupied_0.key == x.0);
                    }
                }
            }
        }
        e
    }

    /// Takes the entry out of `slot`; the slot stays reserved as retired.
    pub fn retire(&mut self, slot: usize) -> (e: Entry<K, V>)
        requires
            old(self).wf(),
            slot < old(self).slots().len(),
            old(self).slots()[slot as int] is Occupied,
        ensures
            final(self).wf(),
            old(self).slots()[slot as int] == Slot::Occupied(e),
            final(self).slots() == old(self).slots().update(
                slot as int,
                Slot::<K, V>::Retired(e.stamp),
            ),
            final(self).index() == old(self).index().remove((e.key, e.hash)),
            final(self).roster() == without(old(self).roster(), slot),
            final(self).next_stamp() == old(self).next_stamp(),
            final(self).free() == old(self).free(),
            final(self).records() == old(self).records().remove((e.key, e.hash)),
    {
        let stamp: u64 = match &self.slots[slot] {
            Slot::Occupied(e) => e.stamp,
            _ => 0,
        };
        let e = self.detach(slot, Slot::Retired(stamp));
        proof {
            assert(self.free_ok()) by {
                assert forall|j: int| 0 <= j < self.free.len() implies {
                    let t = #[trigger] self.free[j];
                    &&& t < self.slots.len()
                    &&& self.slots[t as int] is Vacant
                } by {
                    assert(old(self).slots[old(self).free[j] as int] is Vacant);
                }
            }
        }
        e
    }

    /// Makes the retired `slot` vacant.
    pub fn release(&mut self, slot: usize)
        requires
            old(self).wf(),
            slot < old(self).slots().len(),
            old(self).slots()[slot as int] is Retired,
        ensures
            final(self).wf(),
            final(self).slots() == old(self).slots().update(slot as int, Slot::<K, V>::Vacant),
            final(self).index() == old(self).index(),
            final(self).roster() == old(self).roster(),
            final(self).next_stamp() == old(self).next_stamp(),
            final(self).free() == old(self).free().push(slot),
            final(self).records() == old(self).records(),
    {
        let ghost before = *old(self);
        self.slots[slot] = Slot::Vacant;
        self.free.push(slot);
        proof {
            assert(self.chains_ok()) by {
                assert forall|c: int, k: int|
                    0 <= c < self.buckets.len() && 0 <= k < self.buckets[c].len() implies {
                    let t = #[trigger] self.buckets[c][k];
                    &&& t < self.slots.len()
                    &&& self.slots[t as int] is Occupied
                    &&& bucket_of(
                        self.slots[t as int]->Occupied_0.hash,
                        self.buckets.len() as nat,
                    ) == c
                } by {
                    let t = before.buckets[c][k];
                    assert(before.slots[t as int] is Occupied);
                }
            }
            assert(self.slots_ok()) by {
                assert forall|t: int|
                    0 <= t < self.slots.len() && (#[trigger] self.slots[t]) is Occupied implies {
                    let x = self.slots[t]->Occupied_0;
                    &&& self.roster@.contains(t as usize)
                    &&& self.index@.contains_key((x.key, x.hash))
                    &&& self.index@[(x.key, x.hash)] == t
                    &&& self.buckets[bucket_of(x.hash, self.buckets.len() as nat)]@.contains(
                        t as usize,
                    )
                } by {
                    assert(before.slots[t] is Occupied);
                }
            }
            assert(self.index_ok()) by {
                assert forall|x: (K, u64)| #[trigger] self.index@.contains_key(x) implies {
                    let t = self.index@[x];
                    &&& t < self.slots.len()
                    &&& self.slots[t as int] is Occupied
                    &&& self.slots[t as int]->Occupied_0.key == x.0
                    &&& self.slots[t as int]->Occupied_0.hash == x.1
                } by {
                    assert(before.index@.contains_key(x));
                }
            }
            assert(self.roster_ok()) by {
                assert forall|i: int| 0 <= i < self.roster@.len() implies {
                    let t = #[trigger] self.roster@[i];
                    &&& t < self.slots.len()
                    &&& self.slots[t as int] is Occupied
                } by {
                    assert(before.slots[before.roster@[i] as int] is Occupied);
                }
            }
            assert(self.free_ok()) by {
                let free = self.free@;
                assert forall|j: int| 0 <= j < free.len() implies {
                    let t = #[trigger] free[j];
                    &&& t < self.slots.len()
                    &&& self.slots[t as int] is Vacant
                } by {
                    if j < before.free.len() {
                        assert(before.slots[before.free[j] as int] is Vacant);
                    }
                }
                assert forall|i: int, j: int|
                    0 <= i < free.len() && 0 <= j < free.len() && i != j implies free[i]
                    != free[j] by {
                    if i < before.free.len() {
                        assert(before.slots[before.free[i] as int] is Vacant);
                    }
                    if j < before.free.len() {
                        assert(before.slots[before.free[j] as int] is Vacant);
                    }
                }
            }
            assert(self.records() =~= before.records()) by {
                assert forall|x: (K, u64)| self.records().contains_key(x) implies self.records()[x]
                    == before.records()[x] by {
                    assert(before.index@.contains_key(x));
                }
            }
        }
    }

    /// Takes the entry out of `slot` and makes the slot vacant.
    pub fn evict(&mut self, slot: usize) -> (e: Entry<K, V>)
        requires
            old(self).wf(),
            slot < old(self).slots().len(),
            old(self).slots()[slot as int] is Occupied,
        ensures
            final(self).wf(),
            old(self).slots()[slot as int] == Slot::Occupied(e),
            final(self).slots() == old(self).slots().update(slot as int, Slot::<K, V>::Vacant),
            final(self).index() == old(self).index().remove((e.key, e.hash)),
            final(self).roster() == without(old(self).roster(), slot),
            final(self).next_stamp() == old(self).next_stamp(),
            final(self).free() == old(self).free().push(slot),
            final(self).records() == old(self).records().remove((e.key, e.hash)),
    {
        let e = self.retire(slot);
        self.release(slot);
        proof {
            assert(self.slots@ =~= old(self).slots@.update(slot as int, Slot::<K, V>::Vacant));
        }
        e
    }

    /// A change of the entry in `slot` that keeps its key and hash leaves
    /// the store well formed and changes the record of that entry alone.
    proof fn lemma_rewritten(before: Self, after: Self, slot: int)
        requires
            before.wf(),
            0 <= slot < before.slots.len(),
            before.slots[slot] is Occupied,
            after.slots[slot] is Occupied,
            after.slots[slot]->Occupied_0.key == before.slots[slot]->Occupied_0.key,
            after.slots[slot]->Occupied_0.hash == before.slots[slot]->Occupied_0.hash,
            after.slots@ == before.slots@.update(slot, after.slots[slot]),
            after.free == before.free,
            after.buckets == before.buckets,
            after.live == before.live,
            after.index == before.index,
            after.roster == before.roster,
        ensures
            after.wf(),
            after.records() == before.records().insert(
                (before.slots[slot]->Occupied_0.key, before.slots[slot]->Occupied_0.hash),
                after.slots[slot]->Occupied_0,
            ),
    {
        assert(after.chains_ok()) by {
            assert forall|c: int, k: int|
                0 <= c < after.buckets.len() && 0 <= k < after.buckets[c].len() implies {
                let t = #[trigger] after.buckets[c][k];
                &&& t < after.slots.len()
                &&& after.slots[t as int] is Occupied
                &&& bucket_of(after.slots[t as int]->Occupied_0.hash, after.buckets.len() as nat)
                    == c
            } by {
                let t = before.buckets[c][k];
                assert(before.slots[t as int] is Occupied);
            }
        }
        assert(after.slots_ok()) by {
            assert forall|t: int|
                0 <= t < after.slots.len() && (#[trigger] after.slots[t]) is Occupied implies {
                let x = after.slots[t]->Occupied_0;
                &&& after.roster@.contains(t as usize)
                &&& after.index@.contains_key((x.key, x.hash))
                &&& after.index@[(x.key, x.hash)] == t
                &&& after.buckets[bucket_of(x.hash, after.buckets.len() as nat)]@.contains(
                    t as usize,
                )
            } by {
                assert(before.slots[t] is Occupied);
            }
        }
        assert(after.index_ok()) by {
            assert forall|x: (K, u64)| #[trigger] after.index@.contains_key(x) implies {
                let t = after.index@[x];
                &&& t < after.slots.len()
                &&& after.slots[t as int] is Occupied
                &&& after.slots[t as int]->Occupied_0.key == x.0
                &&& after.slots[t as int]->Occupied_0.hash == x.1
            } by {
                assert(before.index@.contains_key(x));
            }
        }
        assert(after.roster_ok()) by {
            assert forall|i: int| 0 <= i < after.roster@.len() implies {
                let t = #[trigger] after.roster@[i];
                &&& t < after.slots.len()
                &&& after.slots[t as int] is Occupied
            } by {
                assert(before.slots[before.roster@[i] as int] is Occupied);
            }
        }
        assert(after.free_ok()) by {
            assert forall|j: int| 0 <= j < after.free.len() implies {
                let t = #[trigger] after.free[j];
                &&& t < after.slots.len()
                &&& after.slots[t as int] is Vacant
            } by {
                assert(before.slots[before.free[j] as int] is Vacant);
            }
        }
        let e0 = before.slots[slot]->Occupied_0;
        let id = (e0.key, e0.hash);
        assert(before.index@.contains_key(id) && before.index@[id] == slot);
        assert(after.records() =~= before.records().insert(id, after.slots[slot]->Occupied_0)) by {
            assert forall|x: (K, u64)| after.records().contains_key(x) implies after.records()[x]
                == before.records().insert(id, after.slots[slot]->Occupied_0)[x] by {
                assert(before.index@.contains_key(x));
                if x != id {
                    let t = before.index@[x];
                    assert(before.slots[t as int]->Occupied_0.key == x.0);
                    assert(t != slot);
                }
            }
        }
    }

    /// Notes that the entry in `slot` was read at `now`.
    pub fn touch(&mut self, slot: usize, now: u64)
        requires
            old(self).wf(),
            slot < old(self).slots().len(),
            old(self).slots()[slot as int] is Occupied,
        ensures
            final(self).wf(),
            final(self).slots() == old(self).slots().update(
                slot as int,
                Slot::Occupied(Entry { accessed: now, ..old(self).slots()[slot as int]->Occupied_0 }),
            ),
            final(self).index() == old(self).index(),
            final(self).roster() == old(self).roster(),
            final(self).next_stamp() == old(self).next_stamp(),
            final(self).free() == old(self).free(),
            final(self).records() == old(self).records().insert(
                (
                    old(self).slots()[slot as int]->Occupied_0.key,
                    old(self).slots()[slot as int]->Occupied_0.hash,
                ),
                Entry { accessed: now, ..old(self).slots()[slot as int]->Occupied_0 },
            ),
    {
        match &mut self.slots[slot] {
            Slot::Occupied(e) => {
                e.accessed = now;
            },
            _ => {},
        }
        proof {
            Self::lemma_rewritten(*old(self), *self, slot as int);
        }
    }

    /// Replaces the value of the entry in `slot` at `now` and returns the
    /// value it had.  The entry counts as written and read at `now`, and as
    /// matched by no predicate.
    pub fn rewrite(&mut self, slot: usize, value: V, now: u64) -> (previous: V)
        requires
            old(self).wf(),
            slot < old(self).slots().len(),
            old(self).slots()[slot as int] is Occupied,
        ensures
            final(self).wf(),
            previous == old(self).slots()[slot as int]->Occupied_0.value,
            final(self).slots() == old(self).slots().update(
                slot as int,
                Slot::Occupied(
                    Entry {
                        value,
                        modified: now,
                        accessed: now,
                        invalidated: false,
                        ..old(self).slots()[slot as int]->Occupied_0
                    },
                ),
            ),
            final(self).index() == old(self).index(),
            final(self).roster() == old(self).roster(),
            final(self).next_stamp() == old(self).next_stamp(),
            final(self).free() == old(self).free(),
            final(self).records() == old(self).records().insert(
                (
                    old(self).slots()[slot as int]->Occupied_0.key,
                    old(self).slots()[slot as int]->Occupied_0.hash,
                ),
                Entry {
                    value,
                    modified: now,
                    accessed: now,
                    invalidated: false,
                    ..old(self).slots()[slot as int]->Occupied_0
                },
            ),
    {
        let mut value = value;
        match &mut self.slots[slot] {
            Slot::Occupied(e) => {
                std::mem::swap(&mut e.value, &mut value);
                e.modified = now;
                e.accessed = now;
                e.invalidated = false;
            },
            _ => {},
        }
        proof {
            Self::lemma_rewritten(*old(self), *self, slot as int);
        }
        value
    }

    /// Records whether the entry in `slot` has been admitted to the main
    /// space.
    pub fn set_admitted(&mut self, slot: usize, admitted: bool)
        requires
            old(self).wf(),
            slot < old(self).slots().len(),
            old(self).slots()[slot as int] is Occupied,
        ensures
            final(self).wf(),
            final(self).slots() == old(self).slots().update(
                slot as int,
                Slot::Occupied(Entry { admitted, ..old(self).slots()[slot as int]->Occupied_0 }),
            ),
            final(self).index() == old(self).index(),
            final(self).roster() == old(self).roster(),
            final(self).next_stamp() == old(self).next_stamp(),
            final(self).free() == old(self).free(),
            final(self).records() == old(self).records().insert(
                (
                    old(self).slots()[slot as int]->Occupied_0.key,
                    old(self).slots()[slot as int]->Occupied_0.hash,
                ),
                Entry { admitted, ..old(self).slots()[slot as int]->Occupied_0 },
            ),
    {
        match &mut self.slots[slot] {
            Slot::Occupied(e) => {
                e.admitted = admitted;
            },
            _ => {},
        }
        proof {
            Self::lemma_rewritten(*old(self), *self, slot as int);
        }
    }

    /// Marks the entry in `slot` as matched by an invalidation predicate.
    pub fn mark_invalidated(&mut self, slot: usize)
        requires
            old(self).wf(),
            slot < old(self).slots().len(),
            old(self).slots()[slot as int] is Occupied,
        ensures
            final(self).wf(),
            final(self).slots() == old(self).slots().update(
                slot as int,
                Slot::Occupied(
                    Entry { invalidated: true, ..old(self).slots()[slot as int]->Occupied_0 },
                ),
            ),
            final(self).index() == old(self).index(),
            final(self).roster() == old(self).roster(),
            final(self).next_stamp() == old(self).next_stamp(),
            final(self).free() == old(self).free(),
            final(self).records() == old(self).records().insert(
                (
                    old(self).slots()[slot as int]->Occupied_0.key,
                    old(self).slots()[slot as int]->Occupied_0.hash,
                ),
                Entry { invalidated: true, ..old(self).slots()[slot as int]->Occupied_0 },
            ),
    {
        match &mut self.slots[slot] {
            Slot::Occupied(e) => {
                e.invalidated = true;
            },
            _ => {},
        }
        proof {
            Self::lemma_rewritten(*old(self), *self, slot as int);
        }
    }
}

} // verus!
