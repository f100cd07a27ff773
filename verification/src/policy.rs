//! The replacement policy: where each entry stands in the recency queues,
//! and how popular each key has been.
//!
//! A new entry starts in a small admission window.  When the window
//! overflows, its least recent entry becomes a candidate for the main
//! space, which is split into a probation queue and a protected queue.  An
//! entry that is accessed in probation moves to the protected queue; when
//! that queue overflows, its least recent entry falls back to probation.
//! Two more queues order the entries by the time of their last write and of
//! their last access, for expiration.
//!
//! The popularity of a key is estimated by a frequency sketch over the key
//! hashes.  A candidate enters a full cache only if it is estimated to be
//! more popular than the least recent entry on probation.

use vstd::prelude::*;
use crate::order::lemma_distinct_bounded;
use crate::order::lemma_without;
use crate::order::without;
use crate::order::LinkedOrder;
use crate::order::NIL;
use crate::sketch::estimate;
use crate::sketch::recorded;
use crate::sketch::FrequencySketch;
use crate::sketch::SketchView;

verus! {

/// The queues of a policy, each front (least recent) to back.
pub struct PolicyView {
    pub window: Seq<usize>,
    pub probation: Seq<usize>,
    pub protected: Seq<usize>,
    pub write_order: Seq<usize>,
    pub idle_order: Seq<usize>,
}

/// The queues of a policy that holds no entry.
pub open spec fn unpopulated() -> PolicyView {
    PolicyView {
        window: Seq::empty(),
        probation: Seq::empty(),
        protected: Seq::empty(),
        write_order: Seq::empty(),
        idle_order: Seq::empty(),
    }
}

/// The capacity of the admission window of a cache of `max_capacity`
/// entries: one hundredth of it.
pub open spec fn window_share(max_capacity: nat) -> nat {
    max_capacity / 100
}

/// The capacity of the protected queue of a cache of `max_capacity`
/// entries: four fifths of what the window leaves.
pub open spec fn protected_share(max_capacity: nat) -> nat {
    ((max_capacity - window_share(max_capacity)) / 5 * 4) as nat
}

/// `s` with its member `id` moved to the back.
pub open spec fn moved_back(s: Seq<usize>, id: usize) -> Seq<usize> {
    without(s, id).push(id)
}

/// `s` without `id`, whether or not `id` is a member.
pub open spec fn dropped(s: Seq<usize>, id: usize) -> Seq<usize> {
    if s.contains(id) {
        without(s, id)
    } else {
        s
    }
}

/// `s` with `id` moved to the back if it is a member.
pub open spec fn refreshed(s: Seq<usize>, id: usize) -> Seq<usize> {
    if s.contains(id) {
        moved_back(s, id)
    } else {
        s
    }
}

impl PolicyView {
    /// Whether `slot` stands in one of the three recency queues.
    pub open spec fn linked(self, slot: usize) -> bool {
        self.window.contains(slot) || self.probation.contains(slot) || self.protected.contains(
            slot,
        )
    }

    /// The number of entries in the three recency queues.
    pub open spec fn population(self) -> nat {
        self.window.len() + self.probation.len() + self.protected.len()
    }

    /// The queues after `slot` joined as a new entry.
    pub open spec fn joined(self, slot: usize, track_writes: bool, track_idle: bool) -> PolicyView {
        PolicyView {
            window: self.window.push(slot),
            probation: self.probation,
            protected: self.protected,
            write_order: if track_writes {
                self.write_order.push(slot)
            } else {
                self.write_order
            },
            idle_order: if track_idle {
                self.idle_order.push(slot)
            } else {
                self.idle_order
            },
        }
    }

    /// The queues after `slot` left all of them.
    pub open spec fn left(self, slot: usize) -> PolicyView {
        PolicyView {
            window: dropped(self.window, slot),
            probation: dropped(self.probation, slot),
            protected: dropped(self.protected, slot),
            write_order: dropped(self.write_order, slot),
            idle_order: dropped(self.idle_order, slot),
        }
    }

    /// The recency queues after an access to `slot`.
    ///
    /// In the window or the protected queue the entry moves to the back.
    /// On probation it moves to the back of the protected queue, and if
    /// that queue then holds more than `protected_capacity` entries, its
    /// front entry moves to the back of probation.
    pub open spec fn accessed(self, slot: usize, protected_capacity: nat) -> PolicyView {
        if self.window.contains(slot) {
            PolicyView { window: moved_back(self.window, slot), ..self }
        } else if self.probation.contains(slot) {
            let probation = without(self.probation, slot);
            let protected = self.protected.push(slot);
            if protected.len() > protected_capacity {
                PolicyView {
                    probation: probation.push(protected[0]),
                    protected: protected.drop_first(),
                    ..self
                }
            } else {
                PolicyView { probation, protected, ..self }
            }
        } else if self.protected.contains(slot) {
            PolicyView { protected: moved_back(self.protected, slot), ..self }
        } else {
            self
        }
    }

    /// The queues after the entry in `slot` was read.
    pub open spec fn read(self, slot: usize, protected_capacity: nat) -> PolicyView {
        let v = self.accessed(slot, protected_capacity);
        PolicyView { idle_order: refreshed(self.idle_order, slot), ..v }
    }

    /// The queues after the entry in `slot` was written.
    pub open spec fn written(self, slot: usize, protected_capacity: nat) -> PolicyView {
        let v = self.accessed(slot, protected_capacity);
        PolicyView {
            idle_order: refreshed(self.idle_order, slot),
            write_order: refreshed(self.write_order, slot),
            ..v
        }
    }

    /// The queues after the window's member `slot` moved to the back of
    /// probation.
    pub open spec fn admitted(self, slot: usize) -> PolicyView {
        PolicyView {
            window: without(self.window, slot),
            probation: self.probation.push(slot),
            ..self
        }
    }
}

/// Whether a candidate with the estimate `candidate` may take the place of
/// a victim with the estimate `victim`: only if it is strictly more
/// popular.
pub open spec fn outranks(candidate: nat, victim: nat) -> bool {
    candidate > victim
}

/// Decides between a candidate and a victim by their popularity estimates.
pub fn wins_admission(candidate: u8, victim: u8) -> (yes: bool)
    ensures
        yes == outranks(candidate as nat, victim as nat),
{
    candidate > victim
}

/// Which of a candidate and a victim leaves a cache that is over its
/// capacity.
///
/// The candidate leaves if it is the victim itself, or if it is not
/// estimated to be more popular than the victim.  A slot whose entry has
/// gone has no estimate: such a candidate leaves, and such a victim leaves
/// before a candidate that has one.
pub open spec fn loser_of(
    candidate: usize,
    candidate_estimate: Option<nat>,
    victim: usize,
    victim_estimate: Option<nat>,
) -> usize {
    if victim == candidate {
        candidate
    } else {
        match (candidate_estimate, victim_estimate) {
            (Some(c), Some(v)) => if outranks(c, v) {
                victim
            } else {
                candidate
            },
            (Some(_), None) => victim,
            (None, _) => candidate,
        }
    }
}

/// The estimate of a hash, if there is a hash.
pub open spec fn estimate_of(counters: Seq<nat>, hash: Option<u64>) -> Option<nat> {
    match hash {
        Some(h) => Some(estimate(counters, h)),
        None => None,
    }
}

/// What appending a new member does to a sequence without duplicates.
pub proof fn lemma_push_member(s: Seq<usize>, id: usize)
    requires
        s.no_duplicates(),
        !s.contains(id),
    ensures
        s.push(id).no_duplicates(),
        s.push(id).contains(id),
        forall|x: usize| #[trigger] s.push(id).contains(x) <==> (s.contains(x) || x == id),
{
    let t = s.push(id);
    assert forall|i: int, j: int| 0 <= i < t.len() && 0 <= j < t.len() && i != j implies t[i]
        != t[j] by {
        if i < s.len() {
            assert(s.contains(s[i]));
        }
        if j < s.len() {
            assert(s.contains(s[j]));
        }
    }
    assert(t[t.len() - 1] == id);
    assert forall|x: usize| #[trigger] t.contains(x) <==> (s.contains(x) || x == id) by {
        if t.contains(x) {
            let i = t.index_of(x);
            assert(t[i] == x);
            if i < s.len() {
                assert(s[i] == x);
            }
        }
        if s.contains(x) {
            let i = s.index_of(x);
            assert(s[i] == x);
            assert(t[i] == x);
        }
    }
}

/// Moving a member to the back keeps the members and their number.
pub proof fn lemma_moved_back(s: Seq<usize>, id: usize)
    requires
        s.no_duplicates(),
        s.contains(id),
    ensures
        moved_back(s, id).no_duplicates(),
        moved_back(s, id).len() == s.len(),
        forall|x: usize| #[trigger] moved_back(s, id).contains(x) <==> s.contains(x),
{
    lemma_without(s, id);
    lemma_push_member(without(s, id), id);
    assert forall|x: usize| #[trigger] moved_back(s, id).contains(x) <==> s.contains(x) by {
        if x != id {
            assert(without(s, id).contains(x) <==> s.contains(x));
        }
    }
}

/// Dropping the first member is removing it.
pub proof fn lemma_drop_first_member(s: Seq<usize>)
    requires
        s.no_duplicates(),
        s.len() > 0,
    ensures
        s.drop_first() == without(s, s[0]),
{
    assert(s.contains(s[0]));
    let i = s.index_of(s[0]);
    assert(s[i] == s[0]);
    assert(i == 0);
    assert(s.drop_first() =~= s.remove(0));
}

/// Three queues without a common member hold no more entries than there
/// are slot numbers.
pub proof fn lemma_population_bounded(a: Seq<usize>, b: Seq<usize>, c: Seq<usize>)
    requires
        a.no_duplicates(),
        b.no_duplicates(),
        c.no_duplicates(),
        forall|x: usize| !(a.contains(x) && b.contains(x)),
        forall|x: usize| !(a.contains(x) && c.contains(x)),
        forall|x: usize| !(b.contains(x) && c.contains(x)),
        forall|x: usize| a.contains(x) || b.contains(x) || c.contains(x) ==> x != NIL,
    ensures
        a.len() + b.len() + c.len() <= usize::MAX,
{
    let all = a + b + c;
    assert forall|i: int, j: int| 0 <= i < all.len() && 0 <= j < all.len() && i != j implies all[i]
        != all[j] by {
        let x = all[i];
        let y = all[j];
        if i < a.len() {
            assert(a[i] == x);
            assert(a.contains(x));
        } else if i < a.len() + b.len() {
            assert(b[i - a.len()] == x);
            assert(b.contains(x));
        } else {
            assert(c[i - a.len() - b.len()] == x);
            assert(c.contains(x));
        }
        if j < a.len() {
            assert(a[j] == y);
            assert(a.contains(y));
        } else if j < a.len() + b.len() {
            assert(b[j - a.len()] == y);
            assert(b.contains(y));
        } else {
            assert(c[j - a.len() - b.len()] == y);
            assert(c.contains(y));
        }
    }
    assert forall|i: int| 0 <= i < all.len() implies #[trigger] all[i] < usize::MAX by {
        let x = all[i];
        if i < a.len() {
            assert(a[i] == x);
            assert(a.contains(x));
        } else if i < a.len() + b.len() {
            assert(b[i - a.len()] == x);
            assert(b.contains(x));
        } else {
            assert(c[i - a.len() - b.len()] == x);
            assert(c.contains(x));
        }
    }
    lemma_distinct_bounded(all, usize::MAX as nat);
}

/// The recency and expiration queues and the popularity sketch of a cache.
pub struct Policy {
    window: LinkedOrder,
    probation: LinkedOrder,
    protected: LinkedOrder,
    write_order: LinkedOrder,
    idle_order: LinkedOrder,
    sketch: FrequencySketch,
    max_capacity: usize,
    window_capacity: usize,
    protected_capacity: usize,
    track_writes: bool,
    track_idle: bool,
}

impl View for Policy {
    type V = PolicyView;

    closed spec fn view(&self) -> PolicyView {
        PolicyView {
            window: self.window@,
            probation: self.probation@,
            protected: self.protected@,
            write_order: self.write_order@,
            idle_order: self.idle_order@,
        }
    }
}

/// No entry stands in two recency queues, no queue names an entry twice,
/// and the expiration queues that are kept hold exactly the entries of
/// the recency queues.
pub open spec fn consistent(v: PolicyView, track_writes: bool, track_idle: bool) -> bool {
    &&& v.window.no_duplicates()
    &&& v.probation.no_duplicates()
    &&& v.protected.no_duplicates()
    &&& v.write_order.no_duplicates()
    &&& v.idle_order.no_duplicates()
    &&& forall|x: usize| #[trigger]
        v.window.contains(x) ==> x != NIL && !v.probation.contains(x) && !v.protected.contains(x)
    &&& forall|x: usize| #[trigger] v.probation.contains(x) ==> x != NIL && !v.protected.contains(x)
    &&& forall|x: usize| #[trigger] v.protected.contains(x) ==> x != NIL
    &&& forall|x: usize| #[trigger] v.write_order.contains(x) ==> track_writes && v.linked(x)
    &&& forall|x: usize| #[trigger] v.idle_order.contains(x) ==> track_idle && v.linked(x)
    &&& forall|x: usize| #[trigger]
        v.linked(x) ==> (track_writes ==> v.write_order.contains(x)) && (track_idle
            ==> v.idle_order.contains(x))
}

/// What dropping `id` does to a sequence without duplicates.
pub proof fn lemma_dropped(s: Seq<usize>, id: usize)
    requires
        s.no_duplicates(),
    ensures
        dropped(s, id).no_duplicates(),
        forall|x: usize| #[trigger] dropped(s, id).contains(x) <==> (s.contains(x) && x != id),
        dropped(s, id).len() == s.len() - (if s.contains(id) {
            1int
        } else {
            0int
        }),
{
    if s.contains(id) {
        lemma_without(s, id);
        assert forall|x: usize| #[trigger] dropped(s, id).contains(x) <==> (s.contains(x) && x
            != id) by {
            if x != id {
                assert(without(s, id).contains(x) <==> s.contains(x));
            }
        }
    }
}

/// Refreshing `id` keeps the members and their number.
pub proof fn lemma_refreshed(s: Seq<usize>, id: usize)
    requires
        s.no_duplicates(),
    ensures
        refreshed(s, id).no_duplicates(),
        refreshed(s, id).len() == s.len(),
        forall|x: usize| #[trigger] refreshed(s, id).contains(x) <==> s.contains(x),
{
    if s.contains(id) {
        lemma_moved_back(s, id);
    }
}

/// Joining keeps the queues consistent.
pub proof fn lemma_joined(v: PolicyView, slot: usize, tw: bool, ti: bool)
    requires
        consistent(v, tw, ti),
        !v.linked(slot),
        slot != NIL,
    ensures
        consistent(v.joined(slot, tw, ti), tw, ti),
        forall|x: usize| #[trigger] v.joined(slot, tw, ti).linked(x) <==> (v.linked(x) || x == slot),
        v.joined(slot, tw, ti).population() == v.population() + 1,
{
    let w = v.joined(slot, tw, ti);
    lemma_push_member(v.window, slot);
    assert(!v.write_order.contains(slot));
    assert(!v.idle_order.contains(slot));
    lemma_push_member(v.write_order, slot);
    lemma_push_member(v.idle_order, slot);
    assert forall|x: usize| #[trigger] w.linked(x) <==> (v.linked(x) || x == slot) by {
        assert(w.window.contains(x) <==> (v.window.contains(x) || x == slot));
    }
    assert forall|x: usize| #[trigger] w.window.contains(x) implies x != NIL
        && !w.probation.contains(x) && !w.protected.contains(x) by {
        assert(v.window.contains(x) || x == slot);
    }
    assert forall|x: usize| #[trigger] w.write_order.contains(x) implies tw && w.linked(x) by {
        if tw {
            assert(v.write_order.contains(x) || x == slot);
        }
        assert(w.linked(x) <==> (v.linked(x) || x == slot));
    }
    assert forall|x: usize| #[trigger] w.idle_order.contains(x) implies ti && w.linked(x) by {
        if ti {
            assert(v.idle_order.contains(x) || x == slot);
        }
        assert(w.linked(x) <==> (v.linked(x) || x == slot));
    }
    assert forall|x: usize| #[trigger] w.linked(x) implies (tw ==> w.write_order.contains(x)) && (
    ti ==> w.idle_order.contains(x)) by {
        assert(v.linked(x) || x == slot);
        if x != slot {
            assert(v.linked(x));
        }
    }
}

/// Leaving keeps the queues consistent.
pub proof fn lemma_left(v: PolicyView, slot: usize, tw: bool, ti: bool)
    requires
        consistent(v, tw, ti),
    ensures
        consistent(v.left(slot), tw, ti),
        forall|x: usize| #[trigger] v.left(slot).linked(x) <==> (v.linked(x) && x != slot),
        v.left(slot).population() == v.population() - (if v.linked(slot) {
            1int
        } else {
            0int
        }),
{
    let w = v.left(slot);
    lemma_dropped(v.window, slot);
    lemma_dropped(v.probation, slot);
    lemma_dropped(v.protected, slot);
    lemma_dropped(v.write_order, slot);
    lemma_dropped(v.idle_order, slot);
    assert forall|x: usize| #[trigger] w.linked(x) <==> (v.linked(x) && x != slot) by {
        assert(w.window.contains(x) <==> (v.window.contains(x) && x != slot));
        assert(w.probation.contains(x) <==> (v.probation.contains(x) && x != slot));
        assert(w.protected.contains(x) <==> (v.protected.contains(x) && x != slot));
    }
    assert forall|x: usize| #[trigger] w.window.contains(x) implies x != NIL
        && !w.probation.contains(x) && !w.protected.contains(x) by {
        assert(v.window.contains(x));
    }
    assert forall|x: usize| #[trigger] w.probation.contains(x) implies x != NIL
        && !w.protected.contains(x) by {
        assert(v.probation.contains(x));
    }
    assert forall|x: usize| #[trigger] w.protected.contains(x) implies x != NIL by {
        assert(v.protected.contains(x));
    }
    assert forall|x: usize| #[trigger] w.write_order.contains(x) implies tw && w.linked(x) by {
        assert(v.write_order.contains(x));
        assert(w.linked(x) <==> (v.linked(x) && x != slot));
    }
    assert forall|x: usize| #[trigger] w.idle_order.contains(x) implies ti && w.linked(x) by {
        assert(v.idle_order.contains(x));
        assert(w.linked(x) <==> (v.linked(x) && x != slot));
    }
    assert forall|x: usize| #[trigger] w.linked(x) implies (tw ==> w.write_order.contains(x)) && (
    ti ==> w.idle_order.contains(x)) by {
        assert(v.linked(x) && x != slot);
        assert(w.write_order.contains(x) <==> (v.write_order.contains(x) && x != slot));
        assert(w.idle_order.contains(x) <==> (v.idle_order.contains(x) && x != slot));
    }
    if v.window.contains(slot) {
        assert(!v.probation.contains(slot) && !v.protected.contains(slot));
    } else if v.probation.contains(slot) {
        assert(!v.protected.contains(slot));
    }
}

/// A change that keeps the members of every queue keeps the queues
/// consistent.
pub proof fn lemma_same_members(v: PolicyView, w: PolicyView, tw: bool, ti: bool)
    requires
        consistent(v, tw, ti),
        w.window.no_duplicates(),
        w.probation.no_duplicates(),
        w.protected.no_duplicates(),
        w.write_order.no_duplicates(),
        w.idle_order.no_duplicates(),
        forall|x: usize| #[trigger] w.window.contains(x) <==> v.window.contains(x),
        forall|x: usize| #[trigger] w.probation.contains(x) <==> v.probation.contains(x),
        forall|x: usize| #[trigger] w.protected.contains(x) <==> v.protected.contains(x),
        forall|x: usize| #[trigger] w.write_order.contains(x) <==> v.write_order.contains(x),
        forall|x: usize| #[trigger] w.idle_order.contains(x) <==> v.idle_order.contains(x),
    ensures
        consistent(w, tw, ti),
        forall|x: usize| #[trigger] w.linked(x) <==> v.linked(x),
{
    assert forall|x: usize| #[trigger] w.linked(x) <==> v.linked(x) by {
        assert(w.window.contains(x) <==> v.window.contains(x));
        assert(w.probation.contains(x) <==> v.probation.contains(x));
        assert(w.protected.contains(x) <==> v.protected.contains(x));
    }
    assert forall|x: usize| #[trigger] w.window.contains(x) implies x != NIL
        && !w.probation.contains(x) && !w.protected.contains(x) by {
        assert(v.window.contains(x));
        assert(w.probation.contains(x) <==> v.probation.contains(x));
        assert(w.protected.contains(x) <==> v.protected.contains(x));
    }
    assert forall|x: usize| #[trigger] w.probation.contains(x) implies x != NIL
        && !w.protected.contains(x) by {
        assert(v.probation.contains(x));
        assert(w.protected.contains(x) <==> v.protected.contains(x));
    }
    assert forall|x: usize| #[trigger] w.protected.contains(x) implies x != NIL by {
        assert(v.protected.contains(x));
    }
    assert forall|x: usize| #[trigger] w.write_order.contains(x) implies tw && w.linked(x) by {
        assert(v.write_order.contains(x));
        assert(w.linked(x) <==> v.linked(x));
    }
    assert forall|x: usize| #[trigger] w.idle_order.contains(x) implies ti && w.linked(x) by {
        assert(v.idle_order.contains(x));
        assert(w.linked(x) <==> v.linked(x));
    }
    assert forall|x: usize| #[trigger] w.linked(x) implies (tw ==> w.write_order.contains(x)) && (
    ti ==> w.idle_order.contains(x)) by {
        assert(v.linked(x));
        assert(w.write_order.contains(x) <==> v.write_order.contains(x));
        assert(w.idle_order.contains(x) <==> v.idle_order.contains(x));
    }
}

/// A change that moves entries between the recency queues, and keeps the
/// members of the expiration queues, keeps the queues consistent.
pub proof fn lemma_same_linked(v: PolicyView, w: PolicyView, tw: bool, ti: bool)
    requires
        consistent(v, tw, ti),
        w.window.no_duplicates(),
        w.probation.no_duplicates(),
        w.protected.no_duplicates(),
        w.write_order == v.write_order,
        w.idle_order == v.idle_order,
        forall|x: usize| #[trigger] w.linked(x) <==> v.linked(x),
        forall|x: usize| #[trigger]
            w.window.contains(x) ==> !w.probation.contains(x) && !w.protected.contains(x),
        forall|x: usize| #[trigger] w.probation.contains(x) ==> !w.protected.contains(x),
    ensures
        consistent(w, tw, ti),
{
    assert forall|x: usize| #[trigger] w.window.contains(x) implies x != NIL
        && !w.probation.contains(x) && !w.protected.contains(x) by {
        assert(w.linked(x));
        assert(v.linked(x));
    }
    assert forall|x: usize| #[trigger] w.probation.contains(x) implies x != NIL
        && !w.protected.contains(x) by {
        assert(w.linked(x));
        assert(v.linked(x));
    }
    assert forall|x: usize| #[trigger] w.protected.contains(x) implies x != NIL by {
        assert(w.linked(x));
        assert(v.linked(x));
    }
    assert forall|x: usize| #[trigger] w.write_order.contains(x) implies tw && w.linked(x) by {
        assert(v.write_order.contains(x));
        assert(v.linked(x));
        assert(w.linked(x) <==> v.linked(x));
    }
    assert forall|x: usize| #[trigger] w.idle_order.contains(x) implies ti && w.linked(x) by {
        assert(v.idle_order.contains(x));
        assert(v.linked(x));
        assert(w.linked(x) <==> v.linked(x));
    }
    assert forall|x: usize| #[trigger] w.linked(x) implies (tw ==> w.write_order.contains(x)) && (
    ti ==> w.idle_order.contains(x)) by {
        assert(v.linked(x));
    }
}

/// An access keeps the queues consistent and moves no entry in or out.
pub proof fn lemma_accessed(v: PolicyView, slot: usize, cap: nat, tw: bool, ti: bool)
    requires
        consistent(v, tw, ti),
    ensures
        consistent(v.accessed(slot, cap), tw, ti),
        forall|x: usize| #[trigger] v.accessed(slot, cap).linked(x) <==> v.linked(x),
        v.accessed(slot, cap).population() == v.population(),
{
    let w = v.accessed(slot, cap);
    if v.window.contains(slot) {
        lemma_moved_back(v.window, slot);
        lemma_same_members(v, w, tw, ti);
    } else if v.probation.contains(slot) {
        let probation = without(v.probation, slot);
        let protected = v.protected.push(slot);
        lemma_without(v.probation, slot);
        assert(!v.protected.contains(slot));
        lemma_push_member(v.protected, slot);
        if protected.len() > cap {
            let d = protected[0];
            assert(protected.contains(d));
            lemma_drop_first_member(protected);
            lemma_without(protected, d);
            assert(!probation.contains(d)) by {
                if d != slot {
                    assert(v.protected.contains(d));
                    assert(!v.probation.contains(d)) by {
                        if v.probation.contains(d) {
                            assert(!v.protected.contains(d));
                        }
                    }
                    assert(probation.contains(d) <==> v.probation.contains(d));
                }
            }
            lemma_push_member(probation, d);
            assert forall|x: usize| #[trigger] w.probation.contains(x) <==> ((v.probation.contains(
                x,
            ) && x != slot) || x == d) by {
                assert(probation.push(d).contains(x) <==> (probation.contains(x) || x == d));
                if x != slot {
                    assert(probation.contains(x) <==> v.probation.contains(x));
                }
            }
            assert forall|x: usize| #[trigger] w.protected.contains(x) <==> ((v.protected.contains(
                x,
            ) || x == slot) && x != d) by {
                assert(protected.contains(x) <==> (v.protected.contains(x) || x == slot));
                if x != d {
                    assert(without(protected, d).contains(x) <==> protected.contains(x));
                }
            }
            assert forall|x: usize| #[trigger] w.linked(x) <==> v.linked(x) by {
                assert(w.probation.contains(x) <==> ((v.probation.contains(x) && x != slot) || x
                    == d));
                assert(w.protected.contains(x) <==> ((v.protected.contains(x) || x == slot) && x
                    != d));
                if x == d && d != slot {
                    assert(v.protected.contains(d));
                }
            }
            assert forall|x: usize| #[trigger] w.window.contains(x) implies !w.probation.contains(
                x,
            ) && !w.protected.contains(x) by {
                assert(v.window.contains(x));
                assert(w.probation.contains(x) <==> ((v.probation.contains(x) && x != slot) || x
                    == d));
                assert(w.protected.contains(x) <==> ((v.protected.contains(x) || x == slot) && x
                    != d));
                if x == d && d != slot {
                    assert(v.protected.contains(d));
                }
            }
            assert forall|x: usize| #[trigger] w.probation.contains(x) implies !w.protected.contains(
                x,
            ) by {
                assert((v.probation.contains(x) && x != slot) || x == d);
                assert(w.protected.contains(x) <==> ((v.protected.contains(x) || x == slot) && x
                    != d));
                if v.probation.contains(x) {
                    assert(!v.protected.contains(x));
                }
            }
            lemma_same_linked(v, w, tw, ti);
        } else {
            assert forall|x: usize| #[trigger] w.linked(x) <==> v.linked(x) by {
                assert(w.protected.contains(x) <==> (v.protected.contains(x) || x == slot));
                if x != slot {
                    assert(w.probation.contains(x) <==> v.probation.contains(x));
                }
            }
            assert forall|x: usize| #[trigger] w.window.contains(x) implies !w.probation.contains(
                x,
            ) && !w.protected.contains(x) by {
                assert(v.window.contains(x));
                assert(w.protected.contains(x) <==> (v.protected.contains(x) || x == slot));
                if x != slot {
                    assert(w.probation.contains(x) <==> v.probation.contains(x));
                }
            }
            assert forall|x: usize| #[trigger] w.probation.contains(x) implies !w.protected.contains(
                x,
            ) by {
                assert(x != slot);
                assert(w.probation.contains(x) <==> v.probation.contains(x));
                assert(v.probation.contains(x));
                assert(w.protected.contains(x) <==> (v.protected.contains(x) || x == slot));
            }
            lemma_same_linked(v, w, tw, ti);
        }
    } else if v.protected.contains(slot) {
        lemma_moved_back(v.protected, slot);
        lemma_same_members(v, w, tw, ti);
    } else {
        assert(w == v);
    }
}

/// Replaying a read or a write keeps the queues consistent and moves no
/// entry in or out.
pub proof fn lemma_replayed(v: PolicyView, slot: usize, cap: nat, tw: bool, ti: bool)
    requires
        consistent(v, tw, ti),
    ensures
        consistent(v.read(slot, cap), tw, ti),
        consistent(v.written(slot, cap), tw, ti),
        forall|x: usize| #[trigger] v.read(slot, cap).linked(x) <==> v.linked(x),
        forall|x: usize| #[trigger] v.written(slot, cap).linked(x) <==> v.linked(x),
        v.read(slot, cap).population() == v.population(),
        v.written(slot, cap).population() == v.population(),
{
    let a = v.accessed(slot, cap);
    lemma_accessed(v, slot, cap, tw, ti);
    lemma_refreshed(v.idle_order, slot);
    lemma_refreshed(v.write_order, slot);
    let r = v.read(slot, cap);
    let w = v.written(slot, cap);
    assert(a.idle_order == v.idle_order && a.write_order == v.write_order);
    lemma_same_members(a, r, tw, ti);
    lemma_same_members(a, w, tw, ti);
    assert forall|x: usize| #[trigger] r.linked(x) <==> v.linked(x) by {
        assert(r.linked(x) <==> a.linked(x));
        assert(a.linked(x) <==> v.linked(x));
    }
    assert forall|x: usize| #[trigger] w.linked(x) <==> v.linked(x) by {
        assert(w.linked(x) <==> a.linked(x));
        assert(a.linked(x) <==> v.linked(x));
    }
}

/// Moving a window entry to probation keeps the queues consistent.
pub proof fn lemma_admitted(v: PolicyView, slot: usize, tw: bool, ti: bool)
    requires
        consistent(v, tw, ti),
        v.window.contains(slot),
    ensures
        consistent(v.admitted(slot), tw, ti),
        forall|x: usize| #[trigger] v.admitted(slot).linked(x) <==> v.linked(x),
        v.admitted(slot).population() == v.population(),
{
    let w = v.admitted(slot);
    lemma_without(v.window, slot);
    assert(!v.probation.contains(slot));
    lemma_push_member(v.probation, slot);
    assert forall|x: usize| #[trigger] w.linked(x) <==> v.linked(x) by {
        assert(w.probation.contains(x) <==> (v.probation.contains(x) || x == slot));
        if x != slot {
            assert(w.window.contains(x) <==> v.window.contains(x));
        }
    }
    assert forall|x: usize| #[trigger] w.window.contains(x) implies !w.probation.contains(x)
        && !w.protected.contains(x) by {
        assert(x != slot);
        assert(w.window.contains(x) <==> v.window.contains(x));
        assert(v.window.contains(x));
        assert(w.probation.contains(x) <==> (v.probation.contains(x) || x == slot));
    }
    assert forall|x: usize| #[trigger] w.probation.contains(x) implies !w.protected.contains(x) by {
        assert(v.probation.contains(x) || x == slot);
        if x == slot {
            assert(v.window.contains(slot));
        }
    }
    lemma_same_linked(v, w, tw, ti);
}

impl Policy {
    /// Whether entries are ordered by the time of their last write.
    pub closed spec fn tracks_writes(&self) -> bool {
        self.track_writes
    }

    /// Whether entries are ordered by the time of their last access.
    pub closed spec fn tracks_idle(&self) -> bool {
        self.track_idle
    }

    /// The largest number of entries the cache may hold at rest.
    pub closed spec fn max_capacity(&self) -> nat {
        self.max_capacity as nat
    }

    /// The popularity sketch.
    pub closed spec fn sketch(&self) -> SketchView {
        self.sketch@
    }

    /// The queues and the sketch are well formed, the queues are
    /// consistent, and the shares of the window and of the protected
    /// queue are those of the capacity.
    pub closed spec fn wf(&self) -> bool {
        &&& self.window.wf()
        &&& self.probation.wf()
        &&& self.protected.wf()
        &&& self.write_order.wf()
        &&& self.idle_order.wf()
        &&& self.sketch.wf()
        &&& self.window_capacity == window_share(self.max_capacity as nat)
        &&& self.protected_capacity == protected_share(self.max_capacity as nat)
        &&& consistent(self@, self.track_writes, self.track_idle)
    }

    /// What `wf` says of the queues.
    pub proof fn lemma_wf(&self)
        requires
            self.wf(),
        ensures
            consistent(self@, self.tracks_writes(), self.tracks_idle()),
            self@.population() <= usize::MAX,
    {
        let v = self@;
        assert forall|x: usize| !(v.window.contains(x) && v.probation.contains(x)) by {}
        assert forall|x: usize| !(v.window.contains(x) && v.protected.contains(x)) by {}
        assert forall|x: usize| !(v.probation.contains(x) && v.protected.contains(x)) by {}
        assert forall|x: usize|
            v.window.contains(x) || v.probation.contains(x) || v.protected.contains(
                x,
            ) implies x != NIL by {}
        lemma_population_bounded(v.window, v.probation, v.protected);
    }

    /// The policy of an empty cache of `max_capacity` entries.
    pub fn new(max_capacity: usize, track_writes: bool, track_idle: bool) -> (p: Self)
        ensures
            p.wf(),
            p.max_capacity() == max_capacity,
            p.tracks_writes() == track_writes,
            p.tracks_idle() == track_idle,
            p@ == unpopulated(),
            p.sketch() == crate::sketch::blank(max_capacity as nat),
    {
        let window_capacity: usize = max_capacity / 100;
        let protected_capacity: usize = (max_capacity - window_capacity) / 5 * 4;
        Policy {
            window: LinkedOrder::new(),
            probation: LinkedOrder::new(),
            protected: LinkedOrder::new(),
            write_order: LinkedOrder::new(),
            idle_order: LinkedOrder::new(),
            sketch: FrequencySketch::with_capacity(max_capacity),
            max_capacity,
            window_capacity,
            protected_capacity,
            track_writes,
            track_idle,
        }
    }

    /// The popularity estimate of `hash`.
    pub fn frequency(&self, hash: u64) -> (f: u8)
        requires
            self.wf(),
        ensures
            f == estimate(self.sketch().counters, hash),
    {
        self.sketch.frequency(hash)
    }

    /// Decides which of a candidate and a victim leaves the cache, given
    /// the hashes of their keys, where their entries are still there.
    pub fn contest(
        &self,
        candidate: usize,
        candidate_hash: Option<u64>,
        victim: usize,
        victim_hash: Option<u64>,
    ) -> (loser: usize)
        requires
            self.wf(),
        ensures
            loser == loser_of(
                candidate,
                estimate_of(self.sketch().counters, candidate_hash),
                victim,
                estimate_of(self.sketch().counters, victim_hash),
            ),
    {
        if victim == candidate {
            candidate
        } else {
            match (candidate_hash, victim_hash) {
                (Some(ch), Some(vh)) => {
                    if wins_admission(self.frequency(ch), self.frequency(vh)) {
                        victim
                    } else {
                        candidate
                    }
                },
                (Some(_), None) => victim,
                (None, _) => candidate,
            }
        }
    }

    /// Counts one event of `hash`.
    pub fn record(&mut self, hash: u64)
        requires
            old(self).wf(),
        ensures
            final(self).wf(),
            final(self)@ == old(self)@,
            final(self).max_capacity() == old(self).max_capacity(),
            final(self).tracks_writes() == old(self).tracks_writes(),
            final(self).tracks_idle() == old(self).tracks_idle(),
            final(self).sketch() == recorded(old(self).sketch(), hash),
    {
        self.sketch.increment(hash);
    }

    /// Whether `slot` stands in one of the recency queues.
    pub fn is_linked(&self, slot: usize) -> (b: bool)
        requires
            self.wf(),
        ensures
            b == self@.linked(slot),
    {
        self.window.contains(slot) || self.probation.contains(slot) || self.protected.contains(
            slot,
        )
    }

    /// The number of entries in the recency queues.
    pub fn population(&self) -> (n: usize)
        requires
            self.wf(),
        ensures
            n == self@.population(),
    {
        proof {
            self.lemma_wf();
        }
        self.window.len() + self.probation.len() + self.protected.len()
    }

    /// Whether the recency queues hold more entries than the cache may.
    pub fn over_capacity(&self) -> (b: bool)
        requires
            self.wf(),
        ensures
            b == (self@.population() > self.max_capacity()),
    {
        self.population() > self.max_capacity
    }

    /// The least recent entry of the window, if the window holds more
    /// entries than it may.
    pub fn overflow_candidate(&self) -> (r: Option<usize>)
        requires
            self.wf(),
        ensures
            r == (if self@.window.len() > window_share(self.max_capacity()) {
                Some(self@.window[0])
            } else {
                None
            }),
    {
        if self.window.len() > self.window_capacity {
            self.window.front()
        } else {
            None
        }
    }

    /// The least recent entry of the window.
    pub fn window_front(&self) -> (r: Option<usize>)
        requires
            self.wf(),
        ensures
            r == (if self@.window.len() == 0 {
                None
            } else {
                Some(self@.window[0])
            }),
    {
        self.window.front()
    }

    /// The least recent entry on probation.
    pub fn probation_front(&self) -> (r: Option<usize>)
        requires
            self.wf(),
        ensures
            r == (if self@.probation.len() == 0 {
                None
            } else {
                Some(self@.probation[0])
            }),
    {
        self.probation.front()
    }

    /// The least recent entry of the protected queue.
    pub fn protected_front(&self) -> (r: Option<usize>)
        requires
            self.wf(),
        ensures
            r == (if self@.protected.len() == 0 {
                None
            } else {
                Some(self@.protected[0])
            }),
    {
        self.protected.front()
    }

    /// The entry that was written longest ago.
    pub fn write_front(&self) -> (r: Option<usize>)
        requires
            self.wf(),
        ensures
            r == (if self@.write_order.len() == 0 {
                None
            } else {
                Some(self@.write_order[0])
            }),
    {
        self.write_order.front()
    }

    /// The entry that was accessed longest ago.
    pub fn idle_front(&self) -> (r: Option<usize>)
        requires
            self.wf(),
        ensures
            r == (if self@.idle_order.len() == 0 {
                None
            } else {
                Some(self@.idle_order[0])
            }),
    {
        self.idle_order.front()
    }

    /// Puts the new entry in `slot` at the back of the window and of the
    /// expiration queues that are kept.
    pub fn link(&mut self, slot: usize)
        requires
            old(self).wf(),
            !old(self)@.linked(slot),
            slot != NIL,
        ensures
            final(self).wf(),
            final(self)@ == old(self)@.joined(
                slot,
                old(self).tracks_writes(),
                old(self).tracks_idle(),
            ),
            final(self).max_capacity() == old(self).max_capacity(),
            final(self).tracks_writes() == old(self).tracks_writes(),
            final(self).tracks_idle() == old(self).tracks_idle(),
            final(self).sketch() == old(self).sketch(),
            forall|x: usize| #[trigger] final(self)@.linked(x) <==> (old(self)@.linked(x) || x == slot),
    {
        proof {
            lemma_joined(self@, slot, self.track_writes, self.track_idle);
            assert(!self.write_order@.contains(slot));
            assert(!self.idle_order@.contains(slot));
        }
        self.window.push_back(slot);
        if self.track_writes {
            self.write_order.push_back(slot);
        }
        if self.track_idle {
            self.idle_order.push_back(slot);
        }
    }

    /// Takes `slot` out of every queue it stands in.
    pub fn unlink(&mut self, slot: usize)
        requires
            old(self).wf(),
        ensures
            final(self).wf(),
            final(self)@ == old(self)@.left(slot),
            final(self).max_capacity() == old(self).max_capacity(),
            final(self).tracks_writes() == old(self).tracks_writes(),
            final(self).tracks_idle() == old(self).tracks_idle(),
            final(self).sketch() == old(self).sketch(),
            forall|x: usize| #[trigger] final(self)@.linked(x) <==> (old(self)@.linked(x) && x != slot),
            final(self)@.population() == old(self)@.population() - (if old(self)@.linked(slot) {
                1int
            } else {
                0int
            }),
    {
        proof {
            lemma_left(self@, slot, self.track_writes, self.track_idle);
        }
        if self.window.contains(slot) {
            self.window.remove(slot);
        }
        if self.probation.contains(slot) {
            self.probation.remove(slot);
        }
        if self.protected.contains(slot) {
            self.protected.remove(slot);
        }
        if self.write_order.contains(slot) {
            self.write_order.remove(slot);
        }
        if self.idle_order.contains(slot) {
            self.idle_order.remove(slot);
        }
    }

    fn access(&mut self, slot: usize)
        requires
            old(self).wf(),
        ensures
            final(self).window.wf(),
            final(self).probation.wf(),
            final(self).protected.wf(),
            final(self).write_order == old(self).write_order,
            final(self).idle_order == old(self).idle_order,
            final(self).sketch == old(self).sketch,
            final(self).max_capacity == old(self).max_capacity,
            final(self).window_capacity == old(self).window_capacity,
            final(self).protected_capacity == old(self).protected_capacity,
            final(self).track_writes == old(self).track_writes,
            final(self).track_idle == old(self).track_idle,
            final(self)@ == old(self)@.accessed(slot, old(self).protected_capacity as nat),
            consistent(final(self)@, final(self).track_writes, final(self).track_idle),
            forall|x: usize| #[trigger] final(self)@.linked(x) <==> old(self)@.linked(x),
            final(self)@.population() == old(self)@.population(),
    {
        proof {
            lemma_accessed(
                self@,
                slot,
                self.protected_capacity as nat,
                self.track_writes,
                self.track_idle,
            );
            self.protected.lemma_wf();
        }
        if self.window.contains(slot) {
            self.window.move_to_back(slot);
        } else if self.probation.contains(slot) {
            proof {
                assert(!self.protected@.contains(slot));
                assert(slot != NIL);
            }
            self.probation.remove(slot);
            self.protected.push_back(slot);
            if self.protected.len() > self.protected_capacity {
                let ghost grown = self.protected@;
                let ghost thinned = self.probation@;
                proof {
                    self.protected.lemma_wf();
                    self.probation.lemma_wf();
                    lemma_without(old(self).probation@, slot);
                    lemma_push_member(old(self).protected@, slot);
                    assert(grown.contains(grown[0]));
                    assert(!thinned.contains(grown[0])) by {
                        if grown[0] != slot {
                            assert(old(self).protected@.contains(grown[0]));
                            assert(!old(self).probation@.contains(grown[0])) by {
                                if old(self).probation@.contains(grown[0]) {
                                    assert(!old(self).protected@.contains(grown[0]));
                                }
                            }
                            assert(thinned.contains(grown[0]) <==> old(self).probation@.contains(
                                grown[0],
                            ));
                        }
                    }
                    assert(grown[0] != NIL);
                }
                match self.protected.pop_front() {
                    Some(demoted) => {
                        self.probation.push_back(demoted);
                    },
                    None => {},
                }
            }
        } else if self.protected.contains(slot) {
            self.protected.move_to_back(slot);
        }
    }

    /// Replays a read of the entry in `slot`.
    pub fn on_read(&mut self, slot: usize)
        requires
            old(self).wf(),
        ensures
            final(self).wf(),
            final(self)@ == old(self)@.read(slot, protected_share(old(self).max_capacity())),
            final(self).max_capacity() == old(self).max_capacity(),
            final(self).tracks_writes() == old(self).tracks_writes(),
            final(self).tracks_idle() == old(self).tracks_idle(),
            final(self).sketch() == old(self).sketch(),
            forall|x: usize| #[trigger] final(self)@.linked(x) <==> old(self)@.linked(x),
            final(self)@.population() == old(self)@.population(),
    {
        proof {
            lemma_replayed(
                self@,
                slot,
                self.protected_capacity as nat,
                self.track_writes,
                self.track_idle,
            );
        }
        self.access(slot);
        if self.idle_order.contains(slot) {
            self.idle_order.move_to_back(slot);
        }
    }

    /// Replays a write to the entry in `slot`.
    pub fn on_write(&mut self, slot: usize)
        requires
            old(self).wf(),
        ensures
            final(self).wf(),
            final(self)@ == old(self)@.written(slot, protected_share(old(self).max_capacity())),
            final(self).max_capacity() == old(self).max_capacity(),
            final(self).tracks_writes() == old(self).tracks_writes(),
            final(self).tracks_idle() == old(self).tracks_idle(),
            final(self).sketch() == old(self).sketch(),
            forall|x: usize| #[trigger] final(self)@.linked(x) <==> old(self)@.linked(x),
            final(self)@.population() == old(self)@.population(),
    {
        proof {
            lemma_replayed(
                self@,
                slot,
                self.protected_capacity as nat,
                self.track_writes,
                self.track_idle,
            );
        }
        self.access(slot);
        if self.idle_order.contains(slot) {
            self.idle_order.move_to_back(slot);
        }
        if self.write_order.contains(slot) {
            self.write_order.move_to_back(slot);
        }
    }

    /// Moves the window's member `slot` to the back of probation.
    pub fn admit_to_main(&mut self, slot: usize)
        requires
            old(self).wf(),
            old(self)@.window.contains(slot),
        ensures
            final(self).wf(),
            final(self)@ == old(self)@.admitted(slot),
            final(self).max_capacity() == old(self).max_capacity(),
            final(self).tracks_writes() == old(self).tracks_writes(),
            final(self).tracks_idle() == old(self).tracks_idle(),
            final(self).sketch() == old(self).sketch(),
            forall|x: usize| #[trigger] final(self)@.linked(x) <==> old(self)@.linked(x),
            final(self)@.population() == old(self)@.population(),
    {
        proof {
            lemma_admitted(self@, slot, self.track_writes, self.track_idle);
            assert(!self.probation@.contains(slot));
            assert(slot != NIL);
        }
        self.window.remove(slot);
        self.probation.push_back(slot);
    }
}

} // verus!
