//! An ordered set of small integers with constant-time insertion at the
//! back, removal of any member and access to the front.
//!
//! The members are slot numbers of cache entries.  The links of a slot
//! live at the slot's own index, so a member is found without a search:
//! this is what lets the cache move an entry to the most recently used end
//! of its queue, or drop it from every queue, in constant time.

use vstd::prelude::*;

verus! {

/// The link value that stands for "no neighbour".
pub const NIL: usize = usize::MAX;

#[derive(Clone, Copy)]
struct Link {
    prev: usize,
    next: usize,
    linked: bool,
}

/// A queue of distinct slot numbers, front (least recent) to back (most
/// recent).
pub struct LinkedOrder {
    links: Vec<Link>,
    head: usize,
    tail: usize,
    count: usize,
    order: Ghost<Seq<usize>>,
}

/// `s` without its member `id`.
pub open spec fn without(s: Seq<usize>, id: usize) -> Seq<usize> {
    s.remove(s.index_of(id))
}

/// A sequence of distinct numbers below `n` has at most `n` members.
pub proof fn lemma_distinct_bounded(s: Seq<usize>, n: nat)
    requires
        s.no_duplicates(),
        forall|i: int| 0 <= i < s.len() ==> #[trigger] s[i] < n,
    ensures
        s.len() <= n,
    decreases n,
{
    if n == 0 {
        if s.len() > 0 {
            assert(s[0] < n);
        }
    } else {
        let top: usize = (n - 1) as usize;
        if s.contains(top) {
            let idx = s.index_of(top);
            let rest = s.remove(idx);
            assert forall|i: int| 0 <= i < rest.len() implies #[trigger] rest[i] < n - 1 by {
                if i < idx {
                    assert(rest[i] == s[i]);
                    assert(s[i] < n);
                } else {
                    assert(rest[i] == s[i + 1]);
                    assert(s[i + 1] < n);
                }
            }
            assert(rest.no_duplicates()) by {
                assert forall|i: int, j: int|
                    0 <= i < rest.len() && 0 <= j < rest.len() && i != j implies rest[i]
                    != rest[j] by {
                    let si = if i < idx {
                        i
                    } else {
                        i + 1
                    };
                    let sj = if j < idx {
                        j
                    } else {
                        j + 1
                    };
                    assert(rest[i] == s[si] && rest[j] == s[sj]);
                }
            }
            lemma_distinct_bounded(rest, (n - 1) as nat);
        } else {
            assert forall|i: int| 0 <= i < s.len() implies #[trigger] s[i] < n - 1 by {
                assert(s[i] < n);
                assert(s.contains(s[i]));
            }
            lemma_distinct_bounded(s, (n - 1) as nat);
        }
    }
}

/// What removing a member does to a sequence without duplicates.
pub proof fn lemma_without(s: Seq<usize>, id: usize)
    requires
        s.no_duplicates(),
        s.contains(id),
    ensures
        without(s, id).len() == s.len() - 1,
        without(s, id).no_duplicates(),
        !without(s, id).contains(id),
        forall|x: usize| x != id ==> (#[trigger] without(s, id).contains(x) <==> s.contains(x)),
{
    let idx = s.index_of(id);
    let rest = without(s, id);
    assert forall|i: int, j: int|
        0 <= i < rest.len() && 0 <= j < rest.len() && i != j implies rest[i] != rest[j] by {
        let si = if i < idx {
            i
        } else {
            i + 1
        };
        let sj = if j < idx {
            j
        } else {
            j + 1
        };
        assert(rest[i] == s[si] && rest[j] == s[sj]);
    }
    if rest.contains(id) {
        let i = rest.index_of(id);
        let si = if i < idx {
            i
        } else {
            i + 1
        };
        assert(rest[i] == s[si]);
        assert(s[si] == s[idx]);
    }
    assert forall|x: usize| x != id implies (#[trigger] rest.contains(x) <==> s.contains(x)) by {
        if rest.contains(x) {
            let i = rest.index_of(x);
            let si = if i < idx {
                i
            } else {
                i + 1
            };
            assert(rest[i] == s[si]);
        }
        if s.contains(x) {
            let si = s.index_of(x);
            let i = if si < idx {
                si
            } else {
                si - 1
            };
            assert(rest[i] == s[si]);
        }
    }
}

spec fn first_of(order: Seq<usize>) -> usize {
    if order.len() == 0 {
        NIL
    } else {
        order[0]
    }
}

spec fn last_of(order: Seq<usize>) -> usize {
    if order.len() == 0 {
        NIL
    } else {
        order[order.len() - 1]
    }
}

spec fn before_of(order: Seq<usize>, i: int) -> usize {
    if i == 0 {
        NIL
    } else {
        order[i - 1]
    }
}

spec fn after_of(order: Seq<usize>, i: int) -> usize {
    if i == order.len() - 1 {
        NIL
    } else {
        order[i + 1]
    }
}

/// The links describe exactly the sequence `order`.
spec fn chained(links: Seq<Link>, order: Seq<usize>) -> bool {
    &&& order.no_duplicates()
    &&& forall|i: int|
        0 <= i < order.len() ==> {
            let id = #[trigger] order[i];
            &&& id < links.len()
            &&& links[id as int].linked
            &&& links[id as int].prev == before_of(order, i)
            &&& links[id as int].next == after_of(order, i)
        }
    &&& forall|id: int|
        0 <= id < links.len() && (#[trigger] links[id]).linked ==> order.contains(id as usize)
}

/// The links after the member `id` was taken out of the chain.
spec fn unlinked(links: Seq<Link>, id: usize) -> Seq<Link> {
    let p = links[id as int].prev;
    let n = links[id as int].next;
    let l1 = if p != NIL {
        links.update(p as int, Link { prev: links[p as int].prev, next: n, linked: true })
    } else {
        links
    };
    let l2 = if n != NIL {
        l1.update(n as int, Link { prev: p, next: l1[n as int].next, linked: true })
    } else {
        l1
    };
    l2.update(id as int, Link { prev: NIL, next: NIL, linked: false })
}

proof fn lemma_unlinked(links: Seq<Link>, order: Seq<usize>, id: usize)
    requires
        chained(links, order),
        order.contains(id),
        links.len() <= usize::MAX,
    ensures
        chained(unlinked(links, id), without(order, id)),
        unlinked(links, id).len() == links.len(),
        links[id as int].prev == before_of(order, order.index_of(id)),
        links[id as int].next == after_of(order, order.index_of(id)),
        links[id as int].prev != NIL ==> links[id as int].prev < links.len(),
        links[id as int].next != NIL ==> links[id as int].next < links.len(),
        first_of(without(order, id)) == (if links[id as int].prev == NIL {
            links[id as int].next
        } else {
            first_of(order)
        }),
        last_of(without(order, id)) == (if links[id as int].next == NIL {
            links[id as int].prev
        } else {
            last_of(order)
        }),
{
    let idx = order.index_of(id);
    assert(order[idx] == id);
    let p = links[id as int].prev;
    let n = links[id as int].next;
    let after = without(order, id);
    let nl = unlinked(links, id);
    lemma_without(order, id);
    assert forall|i: int| 0 <= i < order.len() implies #[trigger] order[i] != NIL by {
        assert(order[i] < links.len());
    }
    if idx > 0 {
        assert(order[idx - 1] != NIL);
        assert(p == order[idx - 1]);
        assert(order[idx - 1] < links.len());
    }
    if idx < order.len() - 1 {
        assert(order[idx + 1] != NIL);
        assert(n == order[idx + 1]);
        assert(order[idx + 1] < links.len());
    }
    assert(nl.len() == links.len());
    assert forall|i: int| 0 <= i < after.len() implies {
        let m = #[trigger] after[i];
        &&& m < nl.len()
        &&& nl[m as int].linked
        &&& nl[m as int].prev == before_of(after, i)
        &&& nl[m as int].next == after_of(after, i)
    } by {
        let si = if i < idx {
            i
        } else {
            i + 1
        };
        let m = after[i];
        assert(m == order[si]);
        assert(m < links.len() && links[m as int].linked);
        assert(m != id);
        assert(links[m as int].prev == before_of(order, si));
        assert(links[m as int].next == after_of(order, si));
        if i > 0 {
            let sp = if i - 1 < idx {
                i - 1
            } else {
                i
            };
            assert(after[i - 1] == order[sp]);
        }
        if i < after.len() - 1 {
            let sn = if i + 1 < idx {
                i + 1
            } else {
                i + 2
            };
            assert(after[i + 1] == order[sn]);
        }
        if si == idx - 1 {
            assert(m == p);
            if n != NIL {
                assert(n != m);
            }
            assert(nl[m as int].next == n);
            assert(nl[m as int].prev == links[m as int].prev);
        } else if si == idx + 1 {
            assert(m == n);
            if p != NIL {
                assert(p != m);
            }
            assert(nl[m as int].prev == p);
            assert(nl[m as int].next == links[m as int].next);
        } else {
            if p != NIL {
                assert(order[idx - 1] != order[si]);
            }
            if n != NIL {
                assert(order[idx + 1] != order[si]);
            }
            assert(nl[m as int] == links[m as int]);
        }
    }
    assert forall|m: int| 0 <= m < nl.len() && (#[trigger] nl[m]).linked implies after.contains(
        m as usize,
    ) by {
        assert(m != id);
        assert(links[m].linked);
        assert(order.contains(m as usize));
    }
    if after.len() > 0 {
        if idx == 0 {
            assert(after[0] == order[1]);
        } else {
            assert(after[0] == order[0]);
        }
        if idx == order.len() - 1 {
            assert(after[after.len() - 1] == order[order.len() - 2]);
        } else {
            assert(after[after.len() - 1] == order[order.len() - 1]);
        }
    }
}

impl View for LinkedOrder {
    type V = Seq<usize>;

    closed spec fn view(&self) -> Seq<usize> {
        self.order@
    }
}

impl LinkedOrder {
    /// The links mirror the order: every member's neighbours are the
    /// members next to it, and no slot outside the order is marked linked.
    pub closed spec fn wf(&self) -> bool {
        &&& self.count == self.order@.len()
        &&& chained(self.links@, self.order@)
        &&& self.head == first_of(self.order@)
        &&& self.tail == last_of(self.order@)
    }

    /// The members are distinct, and none of them is `NIL`.
    pub proof fn lemma_wf(&self)
        requires
            self.wf(),
        ensures
            self@.no_duplicates(),
            forall|i: int| 0 <= i < self@.len() ==> #[trigger] self@[i] != NIL,
            self@.len() <= usize::MAX,
    {
        assert forall|i: int| 0 <= i < self@.len() implies #[trigger] self@[i] != NIL by {
            assert(self@[i] < self.links.len());
        }
        lemma_distinct_bounded(self@, self.links.len() as nat);
    }

    /// An empty queue.
    pub fn new() -> (q: Self)
        ensures
            q.wf(),
            q@ == Seq::<usize>::empty(),
    {
        LinkedOrder {
            links: Vec::new(),
            head: NIL,
            tail: NIL,
            count: 0,
            order: Ghost(Seq::empty()),
        }
    }

    /// The number of members.
    pub fn len(&self) -> (n: usize)
        requires
            self.wf(),
        ensures
            n == self@.len(),
    {
        self.count
    }

    /// Whether `id` is a member.
    pub fn contains(&self, id: usize) -> (b: bool)
        requires
            self.wf(),
        ensures
            b == self@.contains(id),
    {
        if id < self.links.len() {
            let b: bool = self.links[id].linked;
            proof {
                if self@.contains(id) {
                    let i = self@.index_of(id);
                    assert(self.order@[i] == id);
                }
            }
            b
        } else {
            proof {
                if self@.contains(id) {
                    let i = self@.index_of(id);
                    assert(self.order@[i] == id);
                }
            }
            false
        }
    }

    /// The member at the front, if there is one.
    pub fn front(&self) -> (r: Option<usize>)
        requires
            self.wf(),
        ensures
            r == (if self@.len() == 0 {
                None
            } else {
                Some(self@[0])
            }),
    {
        if self.count == 0 {
            None
        } else {
            Some(self.head)
        }
    }

    /// Adds `id` at the back.
    pub fn push_back(&mut self, id: usize)
        requires
            old(self).wf(),
            !old(self)@.contains(id),
            id != NIL,
        ensures
            final(self).wf(),
            final(self)@ == old(self)@.push(id),
    {
        while self.links.len() <= id
            invariant
                self.wf(),
                self@ == old(self)@,
                id < usize::MAX,
            decreases id + 1 - self.links.len(),
        {
            self.links.push(Link { prev: NIL, next: NIL, linked: false });
        }
        let ghost before = self.order@;
        let old_tail: usize = self.tail;
        proof {
            if before.len() > 0 {
                assert(before[before.len() - 1] == old_tail);
                assert(old_tail < self.links.len());
            }
            if self.links[id as int].linked {
                assert(before.contains(id));
            }
        }
        self.links.set(id, Link { prev: old_tail, next: NIL, linked: true });
        if old_tail != NIL {
            let mut t: Link = self.links[old_tail];
            t.next = id;
            self.links.set(old_tail, t);
        } else {
            self.head = id;
        }
        self.tail = id;
        proof {
            let after = before.push(id);
            assert(after.no_duplicates()) by {
                assert forall|i: int, j: int|
                    0 <= i < after.len() && 0 <= j < after.len() && i != j implies after[i]
                    != after[j] by {
                    if i < before.len() {
                        assert(before.contains(before[i]));
                    }
                    if j < before.len() {
                        assert(before.contains(before[j]));
                    }
                }
            }
            assert forall|i: int| 0 <= i < after.len() implies #[trigger] after[i]
                < self.links.len() by {
                if i < before.len() {
                    assert(before[i] < self.links.len());
                }
            }
            lemma_distinct_bounded(after, self.links.len() as nat);
            self.order@ = after;
        }
        self.count = self.count + 1;
        proof {
            let after = self.order@;
            assert forall|i: int| 0 <= i < after.len() implies {
                let m = #[trigger] after[i];
                &&& m < self.links.len()
                &&& self.links[m as int].linked
                &&& self.links[m as int].prev == (if i == 0 {
                    NIL
                } else {
                    after[i - 1]
                })
                &&& self.links[m as int].next == (if i == after.len() - 1 {
                    NIL
                } else {
                    after[i + 1]
                })
            } by {
                if i < before.len() {
                    assert(before[i] == after[i]);
                    assert(before.contains(before[i]));
                    if i > 0 {
                        assert(before[i - 1] == after[i - 1]);
                    }
                    if i < before.len() - 1 {
                        assert(before[i + 1] == after[i + 1]);
                    }
                }
            }
            assert forall|m: int|
                0 <= m < self.links.len() && (#[trigger] self.links[m]).linked implies after.contains(
                m as usize,
            ) by {
                if m == id {
                    assert(after[after.len() - 1] == id);
                } else {
                    assert(before.contains(m as usize));
                    let i = before.index_of(m as usize);
                    assert(after[i] == m);
                }
            }
        }
    }

    /// Removes the member `id`.
    pub fn remove(&mut self, id: usize)
        requires
            old(self).wf(),
            old(self)@.contains(id),
        ensures
            final(self).wf(),
            final(self)@ == without(old(self)@, id),
    {
        let ghost before = self.order@;
        let ghost links0 = self.links@;
        proof {
            assert(links0.len() == self.links.len());
            lemma_unlinked(links0, before, id);
            lemma_without(before, id);
            let i = before.index_of(id);
            assert(before[i] == id);
        }
        let l: Link = self.links[id];
        let p: usize = l.prev;
        let n: usize = l.next;
        if p != NIL {
            let pl: Link = self.links[p];
            proof {
                let i = before.index_of(id);
                assert(before[i - 1] == p);
                assert(links0[p as int].linked);
            }
            self.links.set(p, Link { prev: pl.prev, next: n, linked: true });
        } else {
            self.head = n;
        }
        if n != NIL {
            let nl: Link = self.links[n];
            self.links.set(n, Link { prev: p, next: nl.next, linked: true });
        } else {
            self.tail = p;
        }
        self.links.set(id, Link { prev: NIL, next: NIL, linked: false });
        self.count = self.count - 1;
        proof {
            self.order@ = without(before, id);
            assert(self.links@ =~= unlinked(links0, id));
        }
    }

    /// Removes the member at the front and returns it.
    pub fn pop_front(&mut self) -> (r: Option<usize>)
        requires
            old(self).wf(),
        ensures
            final(self).wf(),
            r == (if old(self)@.len() == 0 {
                None
            } else {
                Some(old(self)@[0])
            }),
            final(self)@ == (if old(self)@.len() == 0 {
                old(self)@
            } else {
                old(self)@.drop_first()
            }),
    {
        match self.front() {
            None => None,
            Some(id) => {
                proof {
                    self.lemma_wf();
                    assert(self@[0] == id);
                    assert(self@.index_of(id) == 0) by {
                        let k = self@.index_of(id);
                        assert(self@[k] == id);
                    }
                    assert(self@.remove(0) =~= self@.drop_first());
                }
                self.remove(id);
                Some(id)
            },
        }
    }

    /// Moves the member `id` to the back.
    pub fn move_to_back(&mut self, id: usize)
        requires
            old(self).wf(),
            old(self)@.contains(id),
        ensures
            final(self).wf(),
            final(self)@ == without(old(self)@, id).push(id),
    {
        proof {
            self.lemma_wf();
            let i = self@.index_of(id);
            assert(self@[i] == id);
            lemma_without(self@, id);
        }
        self.remove(id);
        self.push_back(id);
    }
}

/// A sequence of distinct members, all of which occur in another sequence,
/// is no longer than the other.
pub proof fn lemma_injection_len(a: Seq<usize>, b: Seq<usize>)
    requires
        a.no_duplicates(),
        forall|i: int| 0 <= i < a.len() ==> b.contains(#[trigger] a[i]),
    ensures
        a.len() <= b.len(),
    decreases a.len(),
{
    if a.len() > 0 {
        let x = a[a.len() - 1];
        let rest = a.drop_last();
        assert(b.contains(x));
        let idx = b.index_of(x);
        assert(b[idx] == x);
        let thinned = b.remove(idx);
        assert forall|i: int| 0 <= i < rest.len() implies thinned.contains(#[trigger] rest[i]) by {
            let y = rest[i];
            assert(y == a[i]);
            assert(y != x);
            assert(b.contains(y));
            let j = b.index_of(y);
            assert(b[j] == y);
            if j < idx {
                assert(thinned[j] == y);
            } else {
                assert(thinned[j - 1] == y);
            }
        }
        assert forall|i: int, j: int|
            0 <= i < rest.len() && 0 <= j < rest.len() && i != j implies rest[i] != rest[j] by {
            assert(rest[i] == a[i] && rest[j] == a[j]);
        }
        lemma_injection_len(rest, thinned);
    }
}

} // verus!
