//! A Count-Min style popularity estimator with 4-bit saturating counters
//! and periodic aging.
//!
//! The table is a vector of 64-bit words, each holding sixteen counters.
//! Every key hash selects four counters, one per depth.  Recording an
//! event raises each of them by one (up to fifteen); the estimate of a
//! hash is the smallest of its four counters.  Once enough events have
//! been recorded, every counter is halved so that old popularity fades.

use vstd::prelude::*;

verus! {

/// The largest value a single counter can hold.
pub const COUNTER_MAX: u8 = 15;

/// The widest table the sketch will allocate, in words.
pub const MAX_WIDTH: usize = 0x10_0000;

/// The narrowest table the sketch will allocate, in words.
pub const MIN_WIDTH: usize = 64;

/// Events recorded per table word before the counters are aged.
pub const SAMPLE_FACTOR: u64 = 10;

const NIBBLE_MASK: u64 = 0xf;

const HALVE_MASK: u64 = 0x7777_7777_7777_7777;

/// The abstract state of a sketch.
pub struct SketchView {
    /// All counters, word by word, sixteen per word.
    pub counters: Seq<nat>,
    /// Events recorded since the counters were last aged.
    pub size: nat,
    /// The number of events after which the counters are aged.
    pub sample_size: nat,
}

/// The mixing constant of each depth.
pub open spec fn seed(depth: int) -> u64 {
    if depth == 0 {
        0xc3a5_c85c_97cb_3127
    } else if depth == 1 {
        0xb492_b66f_be98_f273
    } else if depth == 2 {
        0x9ae1_6a3b_2f90_404f
    } else {
        0xcbf2_9ce4_8422_2325
    }
}

/// The hash after it was mixed with the constant of `depth`.
pub open spec fn mixed(hash: u64, depth: int) -> u64 {
    let m: u64 = hash.wrapping_add(seed(depth)).wrapping_mul(seed(depth));
    m.wrapping_add(m >> 32)
}

/// The table word that `hash` uses at `depth`, in a table of `width` words
/// (`width` a power of two).
pub open spec fn word_of(hash: u64, depth: int, width: nat) -> int {
    (mixed(hash, depth) & ((width - 1) as u64)) as int
}

/// The counter inside its word that `hash` uses at `depth`.
pub open spec fn lane_of(hash: u64, depth: int) -> int {
    (((hash & 3) << 2) as int) + depth
}

/// The position, among all counters, of the counter that `hash` uses at
/// `depth`.
pub open spec fn position(hash: u64, depth: int, width: nat) -> int {
    word_of(hash, depth, width) * 16 + lane_of(hash, depth)
}

/// The counter `lane` of a table word.
pub open spec fn lane(word: u64, lane: int) -> nat {
    ((word >> ((lane * 4) as u64)) & 0xf) as nat
}

/// The counters held by a table.
pub open spec fn counters_of(table: Seq<u64>) -> Seq<nat> {
    Seq::new(table.len() * 16, |p: int| lane(table[p / 16], p % 16))
}

/// The smaller of two numbers.
pub open spec fn min2(a: nat, b: nat) -> nat {
    if a <= b {
        a
    } else {
        b
    }
}

/// The popularity estimate of `hash`: the smallest of its four counters.
pub open spec fn estimate(counters: Seq<nat>, hash: u64) -> nat {
    let width: nat = (counters.len() / 16) as nat;
    min2(
        min2(counters[position(hash, 0, width)], counters[position(hash, 1, width)]),
        min2(counters[position(hash, 2, width)], counters[position(hash, 3, width)]),
    )
}

/// `counters` with the counter at `pos` raised by one, unless it is full.
pub open spec fn raised(counters: Seq<nat>, pos: int) -> Seq<nat> {
    if counters[pos] < 15 {
        counters.update(pos, counters[pos] + 1)
    } else {
        counters
    }
}

/// `counters` after `hash` raised its counters of the depths below `depth`.
pub open spec fn bumped_upto(counters: Seq<nat>, hash: u64, depth: int) -> Seq<nat>
    decreases depth,
{
    if depth <= 0 {
        counters
    } else {
        let width: nat = (counters.len() / 16) as nat;
        raised(bumped_upto(counters, hash, depth - 1), position(hash, depth - 1, width))
    }
}

/// `counters` after one event of `hash` was recorded, before any aging.
pub open spec fn bumped(counters: Seq<nat>, hash: u64) -> Seq<nat> {
    bumped_upto(counters, hash, 4)
}

/// Every counter halved, rounding down.
pub open spec fn halved(counters: Seq<nat>) -> Seq<nat> {
    Seq::new(counters.len(), |p: int| counters[p] / 2)
}

/// The state after one event of `hash` was recorded.
///
/// An event that finds all four counters full changes nothing.  Any other
/// event counts towards the sample; the event that completes the sample
/// halves every counter and the event count.
pub open spec fn recorded(s: SketchView, hash: u64) -> SketchView {
    let b = bumped(s.counters, hash);
    if b == s.counters {
        s
    } else if s.size + 1 >= s.sample_size {
        SketchView { counters: halved(b), size: (s.size + 1) / 2, sample_size: s.sample_size }
    } else {
        SketchView { counters: b, size: s.size + 1, sample_size: s.sample_size }
    }
}

/// The sketch of a cache of `capacity` entries before any event: every
/// counter is zero.
pub open spec fn blank(capacity: nat) -> SketchView {
    SketchView {
        counters: Seq::new(width_for(capacity) * 16, |p: int| 0nat),
        size: 0,
        sample_size: width_for(capacity) * SAMPLE_FACTOR as nat,
    }
}

/// The width, in words, of the table of a sketch made for `capacity` items:
/// the capacity rounded up to a power of two, kept between `MIN_WIDTH` and
/// `MAX_WIDTH`.
pub open spec fn width_for(capacity: nat) -> nat {
    width_from(capacity, 6)
}

/// The first power of two, from two to the `shift` on, that holds
/// `capacity`, or `MAX_WIDTH` when none below it does.
pub open spec fn width_from(capacity: nat, shift: u64) -> nat
    decreases 20 - shift,
{
    if shift >= 20 || (1u64 << shift) >= capacity {
        (1u64 << shift) as nat
    } else {
        width_from(capacity, (shift + 1) as u64)
    }
}

proof fn lemma_shift_bounds(shift: u64)
    requires
        6 <= shift <= 20,
    ensures
        MIN_WIDTH <= (1u64 << shift) <= MAX_WIDTH,
{
    assert(6 <= shift <= 20 ==> 64 <= (1u64 << shift) <= 0x10_0000) by (bit_vector);
}

proof fn lemma_lane_raise(w: u64, k: u64, j: u64)
    requires
        k < 16,
        j < 16,
        (w >> (k * 4)) & 0xf < 15,
    ensures
        w + (1u64 << (k * 4)) <= u64::MAX,
        j == k ==> (((w + (1u64 << (k * 4))) as u64) >> (j * 4)) & 0xf == ((w >> (k * 4)) & 0xf)
            + 1,
        j != k ==> (((w + (1u64 << (k * 4))) as u64) >> (j * 4)) & 0xf == (w >> (j * 4)) & 0xf,
{
    assert((w >> (k * 4)) & 0xf < 15 ==> w <= 0xffff_ffff_ffff_ffffu64 - (1u64 << (k * 4)))
        by (bit_vector)
        requires
            k < 16,
    ;
    let w2: u64 = (w + (1u64 << (k * 4))) as u64;
    assert(w2 == w.wrapping_add(1u64 << (k * 4)));
    assert(k < 16 && (w >> (k * 4)) & 0xf < 15 ==> (((w.wrapping_add(1u64 << (k * 4))) >> (k * 4))
        & 0xf) == ((w >> (k * 4)) & 0xf) + 1) by (bit_vector);
    assert(k < 16 && j < 16 && j != k && (w >> (k * 4)) & 0xf < 15 ==> (((w.wrapping_add(
        1u64 << (k * 4),
    )) >> (j * 4)) & 0xf) == ((w >> (j * 4)) & 0xf)) by (bit_vector);
}

proof fn lemma_lane_halve(w: u64, j: u64)
    requires
        j < 16,
    ensures
        ((((w >> 1) & 0x7777_7777_7777_7777) >> (j * 4)) & 0xf) as nat == (((w >> (j * 4))
            & 0xf) as nat) / 2,
        (w >> (j * 4)) & 0xf <= 15,
{
    assert(j < 16 ==> (((w >> 1) & 0x7777_7777_7777_7777) >> (j * 4)) & 0xf == ((w >> (j * 4))
        & 0xf) >> 1) by (bit_vector);
    let c: u64 = (w >> (j * 4)) & 0xf;
    assert(c <= 15) by (bit_vector)
        requires
            c == (w >> (j * 4)) & 0xf,
    ;
    assert(c >> 1 == c / 2) by (bit_vector);
}

proof fn lemma_lane_bound(w: u64, j: u64)
    ensures
        (w >> (j * 4)) & 0xf <= 15,
{
    let c: u64 = (w >> (j * 4)) & 0xf;
    assert(c <= 15) by (bit_vector)
        requires
            c == (w >> (j * 4)) & 0xf,
    ;
}

proof fn lemma_lane_of(hash: u64, depth: u64)
    requires
        depth < 4,
    ensures
        ((hash & 3) << 2) + depth < 16,
        ((hash & 3) << 2) <= 12,
        lane_of(hash, depth as int) == ((hash & 3) << 2) + depth,
{
    assert(((hash & 3) << 2) <= 12) by (bit_vector);
}

proof fn lemma_masked(m: u64, width: u64)
    requires
        0 < width,
    ensures
        (m & ((width - 1) as u64)) < width,
{
    let k: u64 = (width - 1) as u64;
    assert(m & k <= k) by (bit_vector);
}

/// A popularity estimator over key hashes.
pub struct FrequencySketch {
    table: Vec<u64>,
    sample_size: u64,
    size: u64,
}

impl View for FrequencySketch {
    type V = SketchView;

    closed spec fn view(&self) -> SketchView {
        SketchView {
            counters: counters_of(self.table@),
            size: self.size as nat,
            sample_size: self.sample_size as nat,
        }
    }
}

impl FrequencySketch {
    /// The table is never empty, so every hash has four counters, and no
    /// counter exceeds fifteen.
    pub closed spec fn wf(&self) -> bool {
        &&& MIN_WIDTH <= self.table.len() <= MAX_WIDTH
        &&& self.sample_size == self.table.len() * SAMPLE_FACTOR
        &&& self.size < self.sample_size
    }

    /// The number of words in the table.
    pub closed spec fn width(&self) -> nat {
        self.table.len() as nat
    }

    /// What `wf` says of the abstract state.
    pub proof fn lemma_wf(&self)
        requires
            self.wf(),
        ensures
            self@.counters.len() == self.width() * 16,
            MIN_WIDTH <= self.width() <= MAX_WIDTH,
            self@.sample_size == self.width() * SAMPLE_FACTOR,
            self@.size < self@.sample_size,
            forall|p: int| 0 <= p < self@.counters.len() ==> #[trigger] self@.counters[p] <= 15,
            forall|hash: u64, depth: int|
                0 <= depth < 4 ==> 0 <= #[trigger] position(hash, depth, self.width())
                    < self@.counters.len(),
    {
        assert forall|p: int| 0 <= p < self@.counters.len() implies #[trigger] self@.counters[p]
            <= 15 by {
            lemma_lane_bound(self.table@[p / 16], (p % 16) as u64);
        }
        assert forall|hash: u64, depth: int| 0 <= depth < 4 implies 0 <= #[trigger] position(
            hash,
            depth,
            self.width(),
        ) < self@.counters.len() by {
            lemma_lane_of(hash, depth as u64);
            lemma_masked(mixed(hash, depth), self.table.len() as u64);
        }
    }

    /// A sketch for a cache of `capacity` entries, with every counter zero.
    pub fn with_capacity(capacity: usize) -> (s: Self)
        ensures
            s.wf(),
            s.width() == width_for(capacity as nat),
            s@ == blank(capacity as nat),
    {
        let mut shift: u64 = 6;
        proof {
            lemma_shift_bounds(shift);
        }
        while shift < 20 && ((1u64 << shift) as usize) < capacity
            invariant
                6 <= shift <= 20,
                MIN_WIDTH <= (1u64 << shift) <= MAX_WIDTH,
                width_from(capacity as nat, shift) == width_for(capacity as nat),
            decreases 20 - shift,
        {
            shift = shift + 1;
            proof {
                lemma_shift_bounds(shift);
            }
        }
        let width: usize = (1u64 << shift) as usize;
        let mut table: Vec<u64> = Vec::new();
        let mut i: usize = 0;
        while i < width
            invariant
                i <= width,
                table.len() == i,
                forall|j: int| 0 <= j < i ==> table[j] == 0,
            decreases width - i,
        {
            table.push(0);
            i = i + 1;
        }
        let s = FrequencySketch { table, sample_size: (width as u64) * SAMPLE_FACTOR, size: 0 };
        proof {
            assert forall|p: int| 0 <= p < s@.counters.len() implies #[trigger] s@.counters[p]
                == 0 by {
                let j: u64 = (p % 16) as u64;
                assert((0u64 >> (j * 4)) & 0xf == 0) by (bit_vector);
            }
            assert(s@.counters =~= blank(capacity as nat).counters);
        }
        s
    }

    fn seed_at(depth: usize) -> (s: u64)
        requires
            depth < 4,
        ensures
            s == seed(depth as int),
    {
        if depth == 0 {
            0xc3a5_c85c_97cb_3127
        } else if depth == 1 {
            0xb492_b66f_be98_f273
        } else if depth == 2 {
            0x9ae1_6a3b_2f90_404f
        } else {
            0xcbf2_9ce4_8422_2325
        }
    }

    fn word_index(&self, hash: u64, depth: usize) -> (i: usize)
        requires
            self.wf(),
            depth < 4,
        ensures
            i == word_of(hash, depth as int, self.width()),
            i < self.table.len(),
    {
        let s: u64 = Self::seed_at(depth);
        let m: u64 = hash.wrapping_add(s).wrapping_mul(s);
        let m: u64 = m.wrapping_add(m >> 32);
        let mask: u64 = (self.table.len() - 1) as u64;
        proof {
            lemma_masked(m, self.table.len() as u64);
        }
        (m & mask) as usize
    }

    fn lane_index(hash: u64, depth: usize) -> (k: u64)
        requires
            depth < 4,
        ensures
            k == lane_of(hash, depth as int),
            k < 16,
    {
        proof {
            lemma_lane_of(hash, depth as u64);
        }
        ((hash & 3) << 2) + (depth as u64)
    }

    /// The popularity estimate of `hash`.
    pub fn frequency(&self, hash: u64) -> (f: u8)
        requires
            self.wf(),
        ensures
            f == estimate(self@.counters, hash),
            f <= COUNTER_MAX,
    {
        let mut f: u8 = COUNTER_MAX;
        let mut depth: usize = 0;
        proof {
            self.lemma_wf();
        }
        let ghost c = self@.counters;
        let ghost width = self.width();
        while depth < 4
            invariant
                self.wf(),
                depth <= 4,
                c == self@.counters,
                width == self.width(),
                c.len() == width * 16,
                f <= 15,
                depth == 0 ==> f == 15,
                depth == 1 ==> f == c[position(hash, 0, width)],
                depth == 2 ==> f == min2(c[position(hash, 0, width)], c[position(hash, 1, width)]),
                depth == 3 ==> f == min2(
                    min2(c[position(hash, 0, width)], c[position(hash, 1, width)]),
                    c[position(hash, 2, width)],
                ),
                depth == 4 ==> f == estimate(c, hash),
            decreases 4 - depth,
        {
            let i: usize = self.word_index(hash, depth);
            let k: u64 = Self::lane_index(hash, depth);
            let w: u64 = self.table[i];
            let count: u64 = (w >> (k * 4)) & NIBBLE_MASK;
            proof {
                lemma_lane_bound(w, k);
                let p = position(hash, depth as int, width);
                assert(p == i * 16 + k);
                assert(p / 16 == i && p % 16 == k);
                assert(c[p] == count);
            }
            let count8: u8 = count as u8;
            if count8 < f {
                f = count8;
            }
            depth = depth + 1;
        }
        f
    }

    /// Records one event of `hash`.
    pub fn increment(&mut self, hash: u64)
        requires
            old(self).wf(),
        ensures
            final(self).wf(),
            final(self).width() == old(self).width(),
            final(self)@ == recorded(old(self)@, hash),
    {
        let mut added: bool = false;
        let mut depth: usize = 0;
        proof {
            self.lemma_wf();
        }
        let ghost c0 = self@.counters;
        let ghost width = self.width();
        while depth < 4
            invariant
                self.wf(),
                depth <= 4,
                width == self.width(),
                c0.len() == width * 16,
                self.size == old(self).size,
                self.sample_size == old(self).sample_size,
                self@.counters == bumped_upto(c0, hash, depth as int),
                added <==> self@.counters != c0,
                forall|p: int| 0 <= p < c0.len() ==> c0[p] <= #[trigger] self@.counters[p],
            decreases 4 - depth,
        {
            let i: usize = self.word_index(hash, depth);
            let k: u64 = Self::lane_index(hash, depth);
            let w: u64 = self.table[i];
            let ghost before = self@.counters;
            let ghost p = position(hash, depth as int, width);
            proof {
                lemma_lane_bound(w, k);
                assert(p == i * 16 + k);
                assert(p / 16 == i && p % 16 == k);
                assert(before[p] == (w >> (k * 4)) & 0xf);
                assert(bumped_upto(c0, hash, depth as int + 1) == raised(before, p));
            }
            if (w >> (k * 4)) & NIBBLE_MASK < 15 {
                proof {
                    lemma_lane_raise(w, k, k);
                }
                let w2: u64 = w + (1u64 << (k * 4));
                self.table.set(i, w2);
                added = true;
                proof {
                    let after = self@.counters;
                    assert(after =~= before.update(p, before[p] + 1)) by {
                        assert forall|q: int| 0 <= q < after.len() implies after[q]
                            == before.update(p, before[p] + 1)[q] by {
                            if q / 16 == i {
                                lemma_lane_raise(w, k, (q % 16) as u64);
                            }
                        }
                    }
                    assert(after[p] != c0[p]);
                }
            }
            depth = depth + 1;
        }
        if added {
            if self.size + 1 >= self.sample_size {
                let ghost b = self@.counters;
                let n: usize = self.table.len();
                let mut j: usize = 0;
                while j < n
                    invariant
                        j <= n,
                        n == self.table.len(),
                        n == width,
                        b.len() == n * 16,
                        self.size == old(self).size,
                        self.sample_size == old(self).sample_size,
                        forall|q: int| 0 <= q < j * 16 ==> #[trigger] self@.counters[q] == b[q] / 2,
                        forall|q: int| j * 16 <= q < n * 16 ==> #[trigger] self@.counters[q] == b[q],
                    decreases n - j,
                {
                    let w: u64 = self.table[j];
                    let ghost before = self@.counters;
                    self.table.set(j, (w >> 1) & HALVE_MASK);
                    proof {
                        let after = self@.counters;
                        assert forall|q: int| 0 <= q < (j + 1) * 16 implies #[trigger] after[q]
                            == b[q] / 2 by {
                            if q / 16 == j {
                                lemma_lane_halve(w, (q % 16) as u64);
                                assert(before[q] == b[q]);
                            } else {
                                assert(after[q] == before[q]);
                            }
                        }
                        assert forall|q: int| (j + 1) * 16 <= q < n * 16 implies #[trigger] after[q]
                            == b[q] by {
                            assert(after[q] == before[q]);
                        }
                    }
                    j = j + 1;
                }
                proof {
                    assert(self@.counters.len() == b.len());
                    assert forall|q: int| 0 <= q < b.len() implies self@.counters[q] == halved(
                        b,
                    )[q] by {
                        assert(self@.counters[q] == b[q] / 2);
                    }
                    assert(self@.counters =~= halved(b));
                }
                self.size = (self.size + 1) / 2;
            } else {
                self.size = self.size + 1;
            }
        }
    }
}

} // verus!
