//! What follows from the contracts of the cache operations.
//!
//! Every law here speaks of the states before and after operations by
//! the predicates that the contracts of the operations establish, so it
//! holds of every run of the operations it names.

use vstd::prelude::*;
use std::hash::Hash;
use std::sync::Arc;
use crate::base::expired;
use crate::base::fresh;
use crate::base::housekept;
use crate::base::marked;
use crate::base::read_outcome;
use crate::base::shrunk;
use crate::base::touched;
use crate::base::visible;
use crate::base::write_outcome;
use crate::base::BaseCache;
use crate::base::Record;
use crate::base::Rules;
use crate::cache::found_or_stored;
use crate::cache::completed_by;
use crate::cache::entered_by;
use crate::cache::found_of;
use crate::cache::read_by;
use crate::cache::removed_by;
use crate::cache::settings_kept;
use crate::cache::removed_as;
use crate::cache::tried;
use crate::cache::written_by;
use crate::cache::Cache;
use crate::base::queue_of;
use crate::model::batch_end;
use crate::model::CoreView;
use crate::base::EVICTION_BATCH;
use crate::buffer::Op;
use crate::model::EngineView;
use crate::model::Sweep;
use crate::order::lemma_distinct_bounded;
use crate::policy::dropped;
use crate::policy::lemma_dropped;
use crate::policy::estimate_of;
use crate::policy::loser_of;
use crate::policy::outranks;
use crate::sketch::estimate;
use crate::segment::bits_for;
use crate::initializer::Entered;
use crate::initializer::InitTurn;
use crate::initializer::Rounds;
use crate::segment::read_in_segment;
use crate::segment::removed_in_segment;
use crate::segment::segment_of;
use crate::segment::stored_in_segment;

verus! {

/// A value that was stored can be read at once.
///
/// If `value` is written under `id` at `written` and read at `read`, with
/// no operation in between, the read returns a clone of `value`, provided
/// that the entry has not expired in the meantime and that no notes were
/// waiting for the housekeeper.
pub proof fn law_stored_value_is_read<K, V: Clone>(
    s0: Map<(K, u64), Record<V>>,
    s1: Map<(K, u64), Record<V>>,
    s2: Map<(K, u64), Record<V>>,
    rules: Rules,
    id: (K, u64),
    value: V,
    written: u64,
    read: u64,
    r: Option<V>,
)
    requires
        write_outcome(s0, s1, id, value, written),
        read_outcome(s1, s2, rules, id, read, r),
        s2.dom() == s1.dom(),
        visible(fresh(value, written), rules, read),
    ensures
        r is Some,
        cloned(value, r->0),
{
    assert(s1.dom().contains(id));
    assert(s2.contains_key(id));
}

/// A value that was stored is still read after the housekeeper has run,
/// unless the cache was over its capacity or the entry has expired.
///
/// If `value` is written under `id` at `written`, the housekeeper runs at
/// `synced`, and the key is read at `read`, the read returns a clone of
/// `value`, provided that the cache held no more than `capacity` entries
/// after the write and that the entry can still be seen at `read`.
pub proof fn law_stored_value_survives_sync<K, V: Clone>(
    s0: Map<(K, u64), Record<V>>,
    s1: Map<(K, u64), Record<V>>,
    s2: Map<(K, u64), Record<V>>,
    s3: Map<(K, u64), Record<V>>,
    rules: Rules,
    capacity: nat,
    id: (K, u64),
    value: V,
    written: u64,
    synced: u64,
    read: u64,
    r: Option<V>,
)
    requires
        written <= synced <= read,
        write_outcome(s0, s1, id, value, written),
        housekept(s1, s2, rules, synced, capacity),
        read_outcome(s2, s3, rules, id, read, r),
        s3.dom() == s2.dom(),
        s1.dom().len() <= capacity,
        visible(fresh(value, written), rules, read),
    ensures
        r is Some,
        cloned(value, r->0),
{
    let stored = fresh(value, written);
    crate::base::lemma_housekept_spares(s1, s2, rules, synced, capacity);
    assert(visible(stored, rules, synced)) by {
        if !visible(stored, rules, synced) {
            crate::base::lemma_expiry_lasts(stored, rules, synced, read);
        }
    }
    assert(s1.contains_key(id) && s1[id] == stored);
    assert(s2.contains_key(id));
    assert(s2[id] == stored);
    assert(s2.dom().contains(id));
    assert(s3.contains_key(id));
}

/// After the housekeeper has run, the cache holds no more entries than
/// its capacity, whatever it held before.
///
/// This is what `sync` ensures; the law restates it for a cache whose
/// segments each hold no more than their share: the shares of `segments`
/// segments of a cache of `capacity` entries add up to no more than
/// `capacity`.
pub proof fn law_shares_fit_capacity(capacity: nat, segments: nat)
    requires
        segments > 0,
    ensures
        segments * (capacity / segments) <= capacity,
{
    vstd::arithmetic::div_mod::lemma_fundamental_div_mod(capacity as int, segments as int);
    vstd::arithmetic::div_mod::lemma_mod_pos_bound(capacity as int, segments as int);
}

/// A value is not read once its time to live has passed.
///
/// If `value` is written under `id` at `written` and the key is read at
/// `read`, no less than the time to live later, the read returns nothing,
/// whatever the housekeeper did in between and whether or not the entry
/// was read in between.
pub proof fn law_time_to_live<K, V: Clone>(
    s0: Map<(K, u64), Record<V>>,
    s1: Map<(K, u64), Record<V>>,
    s2: Map<(K, u64), Record<V>>,
    s3: Map<(K, u64), Record<V>>,
    rules: Rules,
    id: (K, u64),
    value: V,
    written: u64,
    read: u64,
    r: Option<V>,
)
    requires
        write_outcome(s0, s1, id, value, written),
        forall|x: (K, u64)| #[trigger]
            s2.contains_key(x) ==> s1.contains_key(x) && s2[x].modified == s1[x].modified,
        read_outcome(s2, s3, rules, id, read, r),
        rules.time_to_live is Some,
        written + rules.time_to_live->0 <= read,
    ensures
        r is None,
{
    if s3.contains_key(id) {
        assert(s2.contains_key(id));
        assert(s2[id].modified == written);
    }
}

/// A read renews the time to idle of an entry.
///
/// If an entry is read at `first`, and read again at `second`, less than
/// the time to idle later, the second read returns its value, provided
/// that the entry is still in the cache and has not expired or been
/// invalidated otherwise.
pub proof fn law_read_renews_idle_time<K, V: Clone>(
    s0: Map<(K, u64), Record<V>>,
    s1: Map<(K, u64), Record<V>>,
    s2: Map<(K, u64), Record<V>>,
    s3: Map<(K, u64), Record<V>>,
    rules: Rules,
    id: (K, u64),
    first: u64,
    second: u64,
    r1: Option<V>,
    r2: Option<V>,
)
    requires
        first <= second,
        read_outcome(s0, s1, rules, id, first, r1),
        r1 is Some,
        shrunk(s1, s2),
        s2.contains_key(id),
        read_outcome(s2, s3, rules, id, second, r2),
        s3.dom() == s2.dom(),
        rules.time_to_idle is Some,
        second < first + rules.time_to_idle->0,
        rules.time_to_live is Some ==> second < s0[id].modified + rules.time_to_live->0,
    ensures
        r2 is Some,
        cloned(s0[id].value, r2->0),
{
    assert(s1.contains_key(id));
    assert(s1[id] == touched(s0[id], first));
    assert(s2[id] == s1[id]);
    assert(visible(s0[id], rules, first));
    assert(visible(s2[id], rules, second));
    assert(s3.contains_key(id));
}

/// An entry that is never read expires when its time to idle has passed.
///
/// If `value` is written under `id` at `written` and the key is first
/// read at `read`, no less than the time to idle later, the read returns
/// nothing.
pub proof fn law_time_to_idle<K, V: Clone>(
    s0: Map<(K, u64), Record<V>>,
    s1: Map<(K, u64), Record<V>>,
    s2: Map<(K, u64), Record<V>>,
    s3: Map<(K, u64), Record<V>>,
    rules: Rules,
    id: (K, u64),
    value: V,
    written: u64,
    read: u64,
    r: Option<V>,
)
    requires
        write_outcome(s0, s1, id, value, written),
        shrunk(s1, s2),
        read_outcome(s2, s3, rules, id, read, r),
        rules.time_to_idle is Some,
        written + rules.time_to_idle->0 <= read,
    ensures
        r is None,
{
    if s3.contains_key(id) {
        assert(s2.contains_key(id));
        assert(s2[id] == fresh(value, written));
    }
}

/// A value that one caller has computed and stored is found by the next
/// caller, who does not compute it again.
///
/// If a first `get_or_insert_with` computed the value of `id` and stored
/// it at `stored`, and a second one asks at `asked` while the entry can
/// still be seen and no notes are waiting for the housekeeper, the second
/// does not evaluate its function: both callers hold clones of the one
/// stored value.
pub proof fn law_computed_once<K, V: Clone>(
    s0: Map<(K, u64), Record<V>>,
    s1: Map<(K, u64), Record<V>>,
    s2: Map<(K, u64), Record<V>>,
    rules: Rules,
    id: (K, u64),
    stored: u64,
    asked: u64,
    first: V,
    second: V,
    computed: bool,
)
    requires
        found_or_stored(s0, s1, rules, id, stored, first, true),
        found_or_stored(s1, s2, rules, id, asked, second, computed),
        s1.contains_key(id) && visible(s1[id], rules, asked) ==> !computed,
        visible(fresh(s1[id].value, stored), rules, asked),
    ensures
        !computed,
        cloned(first, s1[id].value),
        cloned(s1[id].value, second),
{
}

/// After a function has failed, the next caller evaluates its own.
///
/// If a `get_or_try_insert_with` for `id` returned an error at `failed`,
/// nothing was stored, and a later one at `retried` does not find a value:
/// what it returns, it has from its own function.
pub proof fn law_retry_after_failure<
    K,
    V: Clone,
    E,
    F: FnOnce() -> Result<V, E>,
    G: FnOnce() -> Result<V, E>,
>(
    s0: Map<(K, u64), Record<V>>,
    s1: Map<(K, u64), Record<V>>,
    s2: Map<(K, u64), Record<V>>,
    rules: Rules,
    id: (K, u64),
    begun: u64,
    failed: u64,
    retried_from: u64,
    retried: u64,
    due1: bool,
    due2: bool,
    first: F,
    second: G,
    r1: Result<V, Arc<E>>,
    r2: Result<V, Arc<E>>,
)
    requires
        failed <= retried_from <= retried,
        tried(s0, s1, rules, id, begun, failed, due1, first, r1),
        r1 is Err,
        tried(s1, s2, rules, id, retried_from, retried, due2, second, r2),
    ensures
        first.ensures((), Err::<V, E>(*r1->Err_0)),
        match r2 {
            Ok(v) => second.ensures((), Ok::<V, E>(v)),
            Err(e) => second.ensures((), Err::<V, E>(*e)),
        },
{
    if s1.contains_key(id) {
        assert(s0.contains_key(id) && s1[id] == s0[id]);
        assert(!visible(s0[id], rules, failed));
        crate::base::lemma_expiry_lasts(s1[id], rules, failed, retried_from);
    }
}

/// What was stored before an invalidation of all entries is no longer
/// read.
///
/// If the rules say that entries written before `rules.valid_after` are
/// invalid, a read of an entry that was written earlier returns nothing,
/// at whatever time.
pub proof fn law_invalidated_entries_are_gone<K, V: Clone>(
    s0: Map<(K, u64), Record<V>>,
    s1: Map<(K, u64), Record<V>>,
    rules: Rules,
    id: (K, u64),
    now: u64,
    r: Option<V>,
)
    requires
        read_outcome(s0, s1, rules, id, now, r),
        rules.valid_after is Some,
        s0.contains_key(id) ==> s0[id].modified < rules.valid_after->0,
    ensures
        r is None,
{
}

/// What is stored after an invalidation of all entries is read.
///
/// If `value` is written under `id` at `written`, no earlier than the
/// latest invalidation of all entries, a read at `read` returns a clone of
/// it, provided that the entry is still in the cache and has not expired.
pub proof fn law_later_entries_stay<K, V: Clone>(
    s0: Map<(K, u64), Record<V>>,
    s1: Map<(K, u64), Record<V>>,
    s2: Map<(K, u64), Record<V>>,
    s3: Map<(K, u64), Record<V>>,
    rules: Rules,
    id: (K, u64),
    value: V,
    written: u64,
    read: u64,
    r: Option<V>,
)
    requires
        write_outcome(s0, s1, id, value, written),
        shrunk(s1, s2),
        s2.contains_key(id),
        read_outcome(s2, s3, rules, id, read, r),
        s3.dom() == s2.dom(),
        rules.valid_after is Some ==> rules.valid_after->0 <= written,
        rules.time_to_live is Some ==> read < written + rules.time_to_live->0,
        rules.time_to_idle is Some ==> read < written + rules.time_to_idle->0,
    ensures
        r is Some,
        cloned(value, r->0),
{
    assert(s2[id] == fresh(value, written));
    assert(s3.contains_key(id));
}

/// A cache reads what it has stored, whatever was invalidated before.
///
/// If a cache stores `value` under `key` and then reads the key, with no
/// operation in between, the read returns a clone of `value`, provided
/// that the time to live and the time to idle have not passed in between
/// and that the read did not have to run the housekeeper.  Nothing that
/// was invalidated before the write stands in the way: the time before
/// which entries are invalid is never ahead of the cache's clock.
pub proof fn law_cache_reads_what_it_stored<K: Hash + Eq, V: Clone, S>(
    c0: Cache<K, V, S>,
    c1: Cache<K, V, S>,
    c2: Cache<K, V, S>,
    key: K,
    hash: u64,
    value: V,
    r: Option<V>,
)
    requires
        c1.wf(),
        written_by(c0.base(), c1.base(), key, hash, value, c1.latest()),
        read_by(c1.base(), c2.base(), key, hash, c2.latest(), r),
        !c1.base().housekeeping_due(),
        c1.base().rules().time_to_live is Some ==> c2.latest() < c1.latest()
            + c1.base().rules().time_to_live->0,
        c1.base().rules().time_to_idle is Some ==> c2.latest() < c1.latest()
            + c1.base().rules().time_to_idle->0,
    ensures
        r is Some,
        cloned(value, r->0),
{
    c1.lemma_wf();
    let id = (key, hash);
    assert(c1.base()@.contains_key(id));
    assert(c1.base()@[id] == fresh(value, c1.latest()));
    assert(c2.base()@.dom().contains(id));
    assert(c2.base()@.contains_key(id));
}

/// A cache reads what it has stored after the housekeeper has run,
/// unless the cache was over its capacity or the entry has expired.
///
/// If a cache stores `value` under `key`, runs the housekeeper and then
/// reads the key, the read returns a clone of `value`, provided that the
/// cache held no more entries than its capacity after the write, that
/// the time to live and the time to idle have not passed, and that the
/// read did not have to run the housekeeper again.
pub proof fn law_cache_reads_after_sync<K: Hash + Eq, V: Clone, S>(
    c0: Cache<K, V, S>,
    c1: Cache<K, V, S>,
    c2: Cache<K, V, S>,
    c3: Cache<K, V, S>,
    key: K,
    hash: u64,
    value: V,
    r: Option<V>,
)
    requires
        c1.wf(),
        written_by(c0.base(), c1.base(), key, hash, value, c1.latest()),
        housekept(
            c1.base()@,
            c2.base()@,
            c1.base().rules(),
            c2.latest(),
            c1.base().capacity(),
        ),
        c2.base().rules() == c1.base().rules(),
        read_by(c2.base(), c3.base(), key, hash, c3.latest(), r),
        !c2.base().housekeeping_due(),
        c1.latest() <= c2.latest() <= c3.latest(),
        c1.base()@.dom().len() <= c1.base().capacity(),
        c1.base().rules().time_to_live is Some ==> c3.latest() < c1.latest()
            + c1.base().rules().time_to_live->0,
        c1.base().rules().time_to_idle is Some ==> c3.latest() < c1.latest()
            + c1.base().rules().time_to_idle->0,
    ensures
        r is Some,
        cloned(value, r->0),
{
    c1.lemma_wf();
    law_stored_value_survives_sync(
        c0.base()@,
        c1.base()@,
        c2.base()@,
        c3.base()@,
        c1.base().rules(),
        c1.base().capacity(),
        (key, hash),
        value,
        c1.latest(),
        c2.latest(),
        c3.latest(),
        r,
    );
}

/// Whoever waited for a round that ended with a value finds a clone of
/// that value when it enters again.
///
/// If the round of a key ends with `value` in a cache, and a caller
/// enters for the key next, the caller finds a clone of the value that
/// was stored, provided that the time to live and the time to idle have
/// not passed in between and that entering did not have to run the
/// housekeeper.
pub proof fn law_waiters_find_the_value<K: Hash + Eq, V: Clone, S, E>(
    c0: Cache<K, V, S>,
    c1: Cache<K, V, S>,
    c2: Cache<K, V, S>,
    key: K,
    hash: u64,
    ticket: u64,
    value: V,
    r0: Rounds<E>,
    r1: Rounds<E>,
    r2: Rounds<E>,
    returned: Result<V, Arc<E>>,
    entered: Entered<V>,
)
    requires
        c1.wf(),
        completed_by(
            c0.base(),
            c1.base(),
            key,
            hash,
            ticket,
            c1.latest(),
            Ok::<V, E>(value),
            r0,
            r1,
            returned,
        ),
        entered_by(c1.base(), c2.base(), key, hash, c2.latest(), r1, r2, entered),
        !c1.base().housekeeping_due(),
        c1.base().rules().time_to_live is Some ==> c2.latest() < c1.latest()
            + c1.base().rules().time_to_live->0,
        c1.base().rules().time_to_idle is Some ==> c2.latest() < c1.latest()
            + c1.base().rules().time_to_idle->0,
    ensures
        returned == Ok::<V, Arc<E>>(value),
        entered is Found,
        cloned(c1.base()@[(key, hash)].value, entered->Found_0),
        cloned(value, c1.base()@[(key, hash)].value),
        r2 == r1,
{
    law_cache_reads_what_it_stored(
        c0,
        c1,
        c2,
        key,
        hash,
        c1.base()@[(key, hash)].value,
        found_of(entered),
    );
}

/// After all entries were invalidated, a cache reads none that was stored
/// before.
///
/// If a cache invalidates all entries and then reads a key, the read
/// returns nothing, provided that the entry of the key, if there is one,
/// was written before the time of the invalidation.
pub proof fn law_cache_forgets_invalidated<K: Hash + Eq, V: Clone, S>(
    c0: Cache<K, V, S>,
    c1: Cache<K, V, S>,
    c2: Cache<K, V, S>,
    key: K,
    hash: u64,
    r: Option<V>,
)
    requires
        c1.base()@ == c0.base()@,
        c1.base().rules().valid_after is Some,
        c1.base().rules().valid_after->0 >= c1.latest(),
        read_by(c1.base(), c2.base(), key, hash, c2.latest(), r),
        c0.base()@.contains_key((key, hash)) ==> c0.base()@[(key, hash)].modified < c1.latest(),
    ensures
        r is None,
{
}

/// A later invalidation of all entries reaches no less far than an
/// earlier one: the time before which entries are invalid never moves
/// back.
pub proof fn law_invalidation_moves_forward(before: Rules, after: Rules, now: u64)
    requires
        after == (Rules {
            valid_after: Some(
                match before.valid_after {
                    Some(t) => if t > now {
                        t
                    } else {
                        now
                    },
                    None => now,
                },
            ),
            ..before
        }),
    ensures
        after.valid_after is Some,
        after.valid_after->0 >= now,
        before.valid_after is Some ==> after.valid_after->0 >= before.valid_after->0,
        forall|modified: u64, accessed: u64, at: u64|
            expired(modified, accessed, before, at) ==> #[trigger] expired(
                modified,
                accessed,
                after,
                at,
            ),
{
}

/// A cache of one segment sends every key to that segment, so it treats
/// every key as a cache without segments does.
pub proof fn law_one_segment(hash: u64)
    ensures
        bits_for(1, 0) == 0,
        segment_of(hash, bits_for(1, 0)) == 0,
{
    assert((1u64 << 0u32) == 1) by (bit_vector);
}

/// A segmented cache answers a read as the segment of the key does.
///
/// What a read of a segmented cache returns and leaves behind is what a
/// read of the cache that is the key's segment returns and leaves behind;
/// no other segment changes.
pub proof fn law_segment_reads_as_cache<K: Hash + Eq, V: Clone, S>(
    before: Seq<Cache<K, V, S>>,
    after: Seq<Cache<K, V, S>>,
    bits: u32,
    key: K,
    hash: u64,
    r: Option<V>,
)
    requires
        read_in_segment(before, after, bits, key, hash, r),
    ensures
        read_by(
            before[segment_of(hash, bits)].base(),
            after[segment_of(hash, bits)].base(),
            key,
            hash,
            after[segment_of(hash, bits)].latest(),
            r,
        ),
        forall|j: int|
            0 <= j < before.len() && j != segment_of(hash, bits) ==> #[trigger] after[j]
                == before[j],
{
}

/// A segmented cache stores a value as the segment of the key does, and
/// a read of the same key and hash looks for it in that segment.
pub proof fn law_segment_writes_as_cache<K: Hash + Eq, V: Clone, S>(
    before: Seq<Cache<K, V, S>>,
    after: Seq<Cache<K, V, S>>,
    last: Seq<Cache<K, V, S>>,
    bits: u32,
    key: K,
    hash: u64,
    value: V,
    r: Option<V>,
)
    requires
        stored_in_segment(before, after, bits, key, hash, value),
        read_in_segment(after, last, bits, key, hash, r),
        last[segment_of(hash, bits)].base()@.dom() == after[segment_of(hash, bits)].base()@.dom(),
        visible(
            fresh(value, after[segment_of(hash, bits)].latest()),
            after[segment_of(hash, bits)].base().rules(),
            last[segment_of(hash, bits)].latest(),
        ),
    ensures
        r is Some,
        cloned(value, r->0),
{
    let i = segment_of(hash, bits);
    let s0 = before[i].base()@;
    let s1 = after[i].base()@;
    let s2 = last[i].base()@;
    let written = after[i].latest();
    let read = last[i].latest();
    assert(written_by(before[i].base(), after[i].base(), key, hash, value, written));
    assert(read_by(after[i].base(), last[i].base(), key, hash, read, r));
    assert(write_outcome(s0, s1, (key, hash), value, written));
    assert(read_outcome(s1, s2, after[i].base().rules(), (key, hash), read, r));
    law_stored_value_is_read(
        s0,
        s1,
        s2,
        after[i].base().rules(),
        (key, hash),
        value,
        written,
        read,
        r,
    );
}

/// An entry that was removed is not read.
pub proof fn law_removed_entry_is_gone<K, V: Clone>(
    s0: Map<(K, u64), Record<V>>,
    s1: Map<(K, u64), Record<V>>,
    s2: Map<(K, u64), Record<V>>,
    s3: Map<(K, u64), Record<V>>,
    rules: Rules,
    capacity: nat,
    id: (K, u64),
    pressure: bool,
    removed: u64,
    read: u64,
    r: Option<V>,
)
    requires
        removed_as(s0, s1, id, pressure, rules, removed, capacity),
        shrunk(s1, s2),
        read_outcome(s2, s3, rules, id, read, r),
    ensures
        r is None,
{
    if s3.contains_key(id) {
        assert(s2.contains_key(id));
    }
}

/// An entry of which a registered predicate holds is no longer read, and
/// an entry of which it does not hold is left as it was.
///
/// If `predicate` is registered at `registered`, an entry that was written
/// before and of which the predicate can only return `hit` is marked
/// exactly if `hit` is true.  A marked entry is not read.
pub proof fn law_predicate_decides<K, V: Clone, F: Fn(&K, &V) -> bool>(
    s0: Map<(K, u64), Record<V>>,
    s1: Map<(K, u64), Record<V>>,
    s2: Map<(K, u64), Record<V>>,
    rules: Rules,
    id: (K, u64),
    predicate: F,
    hit: bool,
    registered: u64,
    read: u64,
    r: Option<V>,
)
    requires
        marked(s0, s1, predicate, registered),
        s0.contains_key(id),
        !s0[id].invalidated,
        s0[id].modified < registered,
        forall|b: bool| call_ensures(predicate, (&id.0, &s0[id].value), b) ==> b == hit,
        read_outcome(s1, s2, rules, id, read, r),
        s2.dom() == s1.dom(),
    ensures
        s1[id] == (Record { invalidated: hit, ..s0[id] }),
        hit ==> r is None,
        !hit && visible(s0[id], rules, read) ==> r is Some && cloned(s0[id].value, r->0),
{
    assert(s1.dom().contains(id));
    assert(s1.contains_key(id));
    assert(s2.dom().contains(id));
    assert(s2.contains_key(id));
}

/// An entry that was written after a predicate was registered is out of
/// the predicate's reach.
pub proof fn law_predicate_spares_later_entries<K, V, F: Fn(&K, &V) -> bool>(
    s0: Map<(K, u64), Record<V>>,
    s1: Map<(K, u64), Record<V>>,
    id: (K, u64),
    predicate: F,
    registered: u64,
)
    requires
        marked(s0, s1, predicate, registered),
        s0.contains_key(id),
        s0[id].modified >= registered,
    ensures
        s1.contains_key(id),
        s1[id] == s0[id],
{
    assert(s1.dom().contains(id));
}

/// A candidate that is not more popular than the victim does not enter a
/// cache that is over its capacity: it is dropped, and the victim stays.
pub proof fn law_unpopular_candidate_is_rejected<K, V>(state: CoreView<K, V>, candidate: usize)
    requires
        state.size > state.capacity,
        state.occupied(candidate),
        state.queues.window.contains(candidate),
        state.queues.probation.no_duplicates(),
        !state.queues.probation.contains(candidate),
        state.queues.probation.len() > 0,
        state.occupied(state.queues.probation[0]),
        !outranks(
            estimate(state.sketch.counters, state.entry(candidate).hash),
            estimate(state.sketch.counters, state.entry(state.queues.probation[0]).hash),
        ),
    ensures
        !state.settled(candidate).occupied(candidate),
        state.settled(candidate).occupied(state.queues.probation[0]),
        state.settled(candidate).queues.probation == state.queues.probation,
{
    let victim = state.queues.probation[0];
    let queues = state.queues.admitted(candidate);
    let pushed = state.queues.probation.push(candidate);
    assert(queues.probation == pushed);
    assert(pushed[0] == victim);
    assert(state.queues.probation.contains(victim));
    assert(victim != candidate);
    let loser = loser_of(
        candidate,
        estimate_of(state.sketch.counters, state.hash_in(candidate)),
        victim,
        estimate_of(state.sketch.counters, state.hash_in(victim)),
    );
    assert(loser == candidate);
    crate::policy::lemma_push_member(state.queues.probation, candidate);
    assert(pushed.index_of(candidate) == pushed.len() - 1) by {
        let i = pushed.index_of(candidate);
        assert(pushed[i] == candidate);
        if i < state.queues.probation.len() {
            assert(state.queues.probation[i] == candidate);
            assert(state.queues.probation.contains(candidate));
        }
    }
    assert(crate::order::without(pushed, candidate) =~= state.queues.probation);
    assert(crate::policy::dropped(pushed, candidate) == state.queues.probation);
}

/// A candidate that is more popular than the victim enters a cache that
/// is over its capacity, and the victim is dropped in its place.
pub proof fn law_popular_candidate_is_admitted<K, V>(state: CoreView<K, V>, candidate: usize)
    requires
        state.size > state.capacity,
        state.occupied(candidate),
        state.queues.window.contains(candidate),
        state.queues.probation.no_duplicates(),
        !state.queues.probation.contains(candidate),
        state.queues.probation.len() > 0,
        state.occupied(state.queues.probation[0]),
        outranks(
            estimate(state.sketch.counters, state.entry(candidate).hash),
            estimate(state.sketch.counters, state.entry(state.queues.probation[0]).hash),
        ),
    ensures
        state.settled(candidate).occupied(candidate),
        state.settled(candidate).entry(candidate).admitted,
        state.settled(candidate).queues.probation.contains(candidate),
        !state.settled(candidate).occupied(state.queues.probation[0]),
        !state.settled(candidate).queues.probation.contains(state.queues.probation[0]),
{
    let victim = state.queues.probation[0];
    let queues = state.queues.admitted(candidate);
    assert(queues.probation[0] == victim);
    assert(state.queues.probation.contains(victim));
    assert(victim != candidate);
    crate::policy::lemma_push_member(state.queues.probation, candidate);
    let pushed = state.queues.probation.push(candidate);
    assert(pushed.contains(victim)) by {
        assert(pushed[0] == victim);
    }
    crate::order::lemma_without(pushed, victim);
}

/// A call of a cache, with what it returned.
pub enum Call<K, V> {
    /// A read of a key by its hash, and what it returned.
    Get { key: K, hash: u64, found: Option<V> },
    /// A write of a value under a key by its hash.
    Insert { key: K, hash: u64, value: V },
    /// The removal of a key by its hash.
    Invalidate { key: K, hash: u64 },
}

impl<K, V> Call<K, V> {
    /// The hash of the key of the call.
    pub open spec fn hash(self) -> u64 {
        match self {
            Call::Get { hash, .. } => hash,
            Call::Insert { hash, .. } => hash,
            Call::Invalidate { hash, .. } => hash,
        }
    }
}

/// Whether `call` leads a cache from `before` to `after`.
pub open spec fn call_on_cache<K: Hash + Eq, V: Clone, S>(
    before: Cache<K, V, S>,
    after: Cache<K, V, S>,
    call: Call<K, V>,
) -> bool {
    &&& match call {
        Call::Get { key, hash, found } => read_by(
            before.base(),
            after.base(),
            key,
            hash,
            after.latest(),
            found,
        ),
        Call::Insert { key, hash, value } => written_by(
            before.base(),
            after.base(),
            key,
            hash,
            value,
            after.latest(),
        ),
        Call::Invalidate { key, hash } => removed_by(
            before.base(),
            after.base(),
            key,
            hash,
            after.latest(),
        ),
    }
    &&& settings_kept(before.base(), after.base())
    &&& after.latest() >= before.latest()
}

/// Whether `call` leads the segments of a segmented cache from `before`
/// to `after`.
pub open spec fn call_on_segments<K: Hash + Eq, V: Clone, S>(
    before: Seq<Cache<K, V, S>>,
    after: Seq<Cache<K, V, S>>,
    bits: u32,
    call: Call<K, V>,
) -> bool {
    match call {
        Call::Get { key, hash, found } => read_in_segment(before, after, bits, key, hash, found),
        Call::Insert { key, hash, value } => stored_in_segment(
            before,
            after,
            bits,
            key,
            hash,
            value,
        ),
        Call::Invalidate { key, hash } => removed_in_segment(before, after, bits, key, hash),
    }
}

/// Whether `states` are the states of a cache before, between and after
/// the calls `calls`.
pub open spec fn cache_run<K: Hash + Eq, V: Clone, S>(
    states: Seq<Cache<K, V, S>>,
    calls: Seq<Call<K, V>>,
) -> bool {
    &&& states.len() == calls.len() + 1
    &&& forall|j: int|
        0 <= j < calls.len() ==> call_on_cache(states[j], states[j + 1], #[trigger] calls[j])
}

/// Whether `states` are the segments of a segmented cache before, between
/// and after the calls `calls`.
pub open spec fn segments_run<K: Hash + Eq, V: Clone, S>(
    states: Seq<Seq<Cache<K, V, S>>>,
    bits: u32,
    calls: Seq<Call<K, V>>,
) -> bool {
    &&& states.len() == calls.len() + 1
    &&& forall|j: int|
        0 <= j < calls.len() ==> call_on_segments(
            states[j],
            states[j + 1],
            bits,
            #[trigger] calls[j],
        )
}

/// Those of `calls` whose key belongs to the segment `i`, in their order.
pub open spec fn calls_of<K, V>(calls: Seq<Call<K, V>>, bits: u32, i: int) -> Seq<Call<K, V>>
    decreases calls.len(),
{
    if calls.len() == 0 {
        Seq::empty()
    } else if segment_of(calls.last().hash(), bits) == i {
        calls_of(calls.drop_last(), bits, i).push(calls.last())
    } else {
        calls_of(calls.drop_last(), bits, i)
    }
}

/// The states of the segment `i` before, between and after those of
/// `calls` whose key belongs to it.
pub open spec fn states_of<K: Hash + Eq, V: Clone, S>(
    states: Seq<Seq<Cache<K, V, S>>>,
    calls: Seq<Call<K, V>>,
    bits: u32,
    i: int,
) -> Seq<Cache<K, V, S>>
    decreases calls.len(),
{
    if calls.len() == 0 {
        seq![states[0][i]]
    } else if segment_of(calls.last().hash(), bits) == i {
        states_of(states.drop_last(), calls.drop_last(), bits, i).push(states.last()[i])
    } else {
        states_of(states.drop_last(), calls.drop_last(), bits, i)
    }
}

/// Through any sequence of calls, a segment of a segmented cache behaves
/// as a cache without segments that is given the calls of its keys.
///
/// If `states` are the segments of a segmented cache before, between and
/// after the calls `calls`, then the states that the segment `i` passes
/// through are the states of a cache before, between and after those of
/// the calls whose key belongs to the segment; the other calls leave the
/// segment as it is.  So whether a key can be seen is decided as in a
/// cache without segments, by the calls of the keys of its segment.
pub proof fn law_segments_run_as_caches<K: Hash + Eq, V: Clone, S>(
    states: Seq<Seq<Cache<K, V, S>>>,
    bits: u32,
    calls: Seq<Call<K, V>>,
    i: int,
)
    requires
        segments_run(states, bits, calls),
        0 <= i < states[0].len(),
    ensures
        cache_run(states_of(states, calls, bits, i), calls_of(calls, bits, i)),
        states_of(states, calls, bits, i).first() == states.first()[i],
        states_of(states, calls, bits, i).last() == states.last()[i],
        states.last().len() == states.first().len(),
    decreases calls.len(),
{
    if calls.len() > 0 {
        let n = calls.len() as int;
        let earlier = states.drop_last();
        let before = calls.drop_last();
        assert forall|j: int| 0 <= j < before.len() implies call_on_segments(
            earlier[j],
            earlier[j + 1],
            bits,
            #[trigger] before[j],
        ) by {
            assert(call_on_segments(states[j], states[j + 1], bits, calls[j]));
        }
        law_segments_run_as_caches(earlier, bits, before, i);
        let run = states_of(earlier, before, bits, i);
        let done = calls_of(before, bits, i);
        let call = calls[n - 1];
        assert(call == calls.last());
        assert(call_on_segments(states[n - 1], states[n], bits, call));
        assert(earlier.last() == states[n - 1]);
        assert(earlier.first() == states.first());
        if segment_of(call.hash(), bits) == i {
            let next = run.push(states[n][i]);
            let all = done.push(call);
            assert(call_on_cache(states[n - 1][i], states[n][i], call));
            assert forall|j: int| 0 <= j < all.len() implies call_on_cache(
                next[j],
                next[j + 1],
                #[trigger] all[j],
            ) by {
                if j < done.len() {
                    assert(call_on_cache(run[j], run[j + 1], done[j]));
                }
            }
        } else {
            assert(states[n][i] == states[n - 1][i]);
        }
    }
}

/// In a cache of one segment, every call belongs to that segment: the
/// segment is given all the calls, in their order.
pub proof fn law_one_segment_takes_all<K, V>(calls: Seq<Call<K, V>>)
    ensures
        calls_of(calls, 0, 0) == calls,
    decreases calls.len(),
{
    if calls.len() > 0 {
        law_one_segment_takes_all(calls.drop_last());
        assert(calls.drop_last().push(calls.last()) =~= calls);
    } else {
        assert(calls_of(calls, 0, 0) =~= calls);
    }
}

/// While a caller evaluates for a key hash, no other caller is told to
/// evaluate for it.
///
/// A caller that enters is told to evaluate only if no round is going on
/// for the hash, and then a round is going on under its ticket.  While a
/// round is going on, a caller that enters finds a value or is told to
/// wait for the ticket of the round, and the round goes on.
pub proof fn law_one_caller_evaluates<K: PartialEq, V: Clone, E>(
    before: BaseCache<K, V>,
    after: BaseCache<K, V>,
    key: K,
    hash: u64,
    now: u64,
    rounds: Rounds<E>,
    next: Rounds<E>,
    r: Entered<V>,
)
    requires
        entered_by(before, after, key, hash, now, rounds, next, r),
    ensures
        r is Turn && r->Turn_0 is Evaluate ==> !rounds.evaluating.contains_key(hash)
            && next.evaluating.contains_key(hash) && next.evaluating[hash]
            == r->Turn_0->Evaluate_0,
        rounds.evaluating.contains_key(hash) ==> next.evaluating == rounds.evaluating && (r is Found
            || r == Entered::<V>::Turn(InitTurn::Wait(rounds.evaluating[hash]))),
{
}

/// Whether the entry in `slot` stands at the front of the queue `queue`
/// and can no longer be seen at `now`.
pub open spec fn doomed<K, V>(state: CoreView<K, V>, queue: u8, slot: usize, now: u64) -> bool {
    &&& queue < 5
    &&& state.front_of(queue) == Some(slot)
    &&& state.occupied(slot)
    &&& state.dead(slot, now)
}

/// Whether `after` holds entries only where `before` held them, and the
/// same ones.
pub open spec fn faded<K, V>(before: CoreView<K, V>, after: CoreView<K, V>) -> bool {
    forall|s: usize| #[trigger]
        after.occupied(s) ==> before.occupied(s) && after.entry(s) == before.entry(s)
}

/// A queue that loses a member other than its front keeps its front.
proof fn lemma_front_stays(s: Seq<usize>, x: usize)
    requires
        s.len() > 0,
        s[0] != x,
    ensures
        dropped(s, x).len() > 0,
        dropped(s, x)[0] == s[0],
{
    if s.contains(x) {
        let i = s.index_of(x);
        assert(0 <= i < s.len() && s[i] == x);
    }
}

/// When a slot is dropped, no other slot comes into use, and an entry
/// that stood at the front of a queue still stands there unless it was
/// the one dropped.
proof fn lemma_drop_spares_front<K, V>(
    state: CoreView<K, V>,
    x: usize,
    queue: u8,
    slot: usize,
    now: u64,
)
    requires
        !state.occupied(slot) || doomed(state, queue, slot, now),
    ensures
        !state.dropped(x).occupied(slot) || doomed(state.dropped(x), queue, slot, now),
        !state.occupied(slot) || x == slot ==> !state.dropped(x).occupied(slot),
        faded(state, state.dropped(x)),
{
    if state.occupied(slot) && x != slot {
        lemma_front_stays(queue_of(state.queues, queue), x);
        assert(state.dropped(x).entry(slot) == state.entry(slot));
    }
}

/// What `lemma_drop_spares_front` says of one drop holds of the drops
/// from the front of a queue; and if the queue is the one the entry
/// stands in front of, the entry is dropped.
proof fn lemma_expiry_spares_front<K, V>(
    state: CoreView<K, V>,
    from: u8,
    budget: nat,
    queue: u8,
    slot: usize,
    now: u64,
)
    requires
        !state.occupied(slot) || doomed(state, queue, slot, now),
    ensures
        !state.queue_expired(from, now, budget).occupied(slot) || doomed(
            state.queue_expired(from, now, budget),
            queue,
            slot,
            now,
        ),
        !state.occupied(slot) || (from == queue && budget > 0) ==> !state.queue_expired(
            from,
            now,
            budget,
        ).occupied(slot),
        faded(state, state.queue_expired(from, now, budget)),
    decreases budget,
{
    if budget > 0 {
        match state.front_of(from) {
            Some(x) => {
                if state.dead(x, now) {
                    lemma_drop_spares_front(state, x, queue, slot, now);
                    lemma_expiry_spares_front(
                        state.dropped(x),
                        from,
                        (budget - 1) as nat,
                        queue,
                        slot,
                        now,
                    );
                    lemma_faded_on(
                        state,
                        state.dropped(x),
                        state.queue_expired(from, now, budget),
                    );
                }
            },
            None => {},
        }
    }
}

/// After the queues from `from` on were relieved of what could no longer
/// be seen, an entry that stood at the front of one of them and could no
/// longer be seen is gone.
proof fn lemma_expired_front_is_dropped<K, V>(
    state: CoreView<K, V>,
    from: u8,
    queue: u8,
    slot: usize,
    now: u64,
)
    requires
        !state.occupied(slot) || (doomed(state, queue, slot, now) && from <= queue),
    ensures
        !state.expired_from(from, now).occupied(slot),
        faded(state, state.expired_from(from, now)),
    decreases 5 - from,
{
    if from < 5 {
        lemma_expiry_spares_front(state, from, EVICTION_BATCH as nat, queue, slot, now);
        lemma_expired_front_is_dropped(
            state.queue_expired(from, now, EVICTION_BATCH as nat),
            (from + 1) as u8,
            queue,
            slot,
            now,
        );
        lemma_faded_on(
            state,
            state.queue_expired(from, now, EVICTION_BATCH as nat),
            state.expired_from(from, now),
        );
    }
}

/// What holds entries only where another state held them does so of
/// every state that the other took them over from.
proof fn lemma_faded_on<K, V>(first: CoreView<K, V>, second: CoreView<K, V>, third: CoreView<K, V>)
    requires
        faded(first, second),
        faded(second, third),
    ensures
        faded(first, third),
{
    assert forall|s: usize| #[trigger] third.occupied(s) implies first.occupied(s) && third.entry(s)
        == first.entry(s) by {
        assert(second.occupied(s));
    }
}

/// Bringing the cache down to its capacity takes no slot into use.
proof fn lemma_enforcing_fills_none<K, V>(state: CoreView<K, V>, rounds: nat, slot: usize)
    requires
        !state.occupied(slot),
    ensures
        !state.enforced_in(rounds).occupied(slot),
        faded(state, state.enforced_in(rounds)),
    decreases rounds,
{
    if rounds > 0 && state.size > state.capacity && state.queues.population() > 0 {
        match state.next_victim() {
            Some(x) => {
                lemma_enforcing_fills_none(state.dropped(x), (rounds - 1) as nat, slot);
                lemma_faded_on(state, state.dropped(x), state.enforced_in(rounds));
            },
            None => {},
        }
    }
}

/// The scan of a predicate takes no slot into use.
proof fn lemma_scanning_fills_none<K, V>(
    state: CoreView<K, V>,
    from: usize,
    end: usize,
    slot: usize,
)
    requires
        !state.occupied(slot),
    ensures
        !state.scanned(from, end).occupied(slot),
        faded(state, state.scanned(from, end)),
    decreases end - from,
{
    if from < end {
        let visited = if state.occupied(from) && state.entry(from).invalidated {
            state.dropped(from)
        } else {
            state
        };
        lemma_scanning_fills_none(visited, (from + 1) as usize, end, slot);
        lemma_faded_on(state, visited, state.scanned(from, end));
    }
}

/// The scans of the registered predicates take no slot into use, and
/// leave no note.
proof fn lemma_sweeping_fills_none<K, V>(state: EngineView<K, V>, i: int, rounds: nat, slot: usize)
    requires
        !state.inner.occupied(slot),
    ensures
        !state.swept_from(i, rounds).inner.occupied(slot),
        state.swept_from(i, rounds).reads == state.reads,
        state.swept_from(i, rounds).writes == state.writes,
        faded(state.inner, state.swept_from(i, rounds).inner),
    decreases rounds,
{
    if !(rounds == 0 || i < 0 || i >= state.sweeps.len()) {
        let sweep = state.sweeps[i];
        let end = batch_end(sweep);
        let inner = state.inner.scanned(sweep.cursor, end);
        lemma_scanning_fills_none(state.inner, sweep.cursor, end, slot);
        if end >= sweep.limit {
            lemma_sweeping_fills_none(
                EngineView { inner, sweeps: state.sweeps.remove(i), ..state },
                i,
                (rounds - 1) as nat,
                slot,
            );
        } else {
            lemma_sweeping_fills_none(
                EngineView {
                    inner,
                    sweeps: state.sweeps.update(i, Sweep { cursor: end, ..sweep }),
                    ..state
                },
                i + 1,
                (rounds - 1) as nat,
                slot,
            );
        }
        lemma_faded_on(state.inner, inner, state.swept_from(i, rounds).inner);
    }
}

/// The housekeeper removes what has expired and stands at the front of a
/// queue.
///
/// If no note of an operation is waiting, and the entry in `slot` stands
/// at the front of one of the queues and can no longer be seen at `now`,
/// then after `sync` at `now` the slot holds no entry.
pub proof fn law_sync_removes_expired_front<K, V>(
    state: EngineView<K, V>,
    queue: u8,
    slot: usize,
    now: u64,
)
    requires
        state.reads.len() == 0,
        state.writes.len() == 0,
        doomed(state.inner, queue, slot, now),
    ensures
        !state.synced(now).inner.occupied(slot),
        faded(state.inner, state.synced(now).inner),
{
    let replayed = state.inner.reads_replayed(state.reads).writes_replayed(state.writes);
    assert(replayed == state.inner);
    lemma_expired_front_is_dropped(state.inner, 0, queue, slot, now);
    let relieved = state.inner.expired_from(0, now);
    lemma_enforcing_fills_none(relieved, relieved.queues.population(), slot);
    let settled = EngineView {
        inner: relieved.enforced(),
        reads: Seq::<Op>::empty(),
        writes: Seq::<Op>::empty(),
        ..state
    };
    lemma_sweeping_fills_none(settled, 0, state.sweeps.len(), slot);
    assert(state.ticked(now) == settled.swept_from(0, state.sweeps.len()));
    assert(state.synced(now) == state.ticked(now));
    lemma_faded_on(state.inner, relieved, relieved.enforced());
    lemma_faded_on(state.inner, settled.inner, state.synced(now).inner);
}

/// After `sync`, the cache no longer holds an entry that had expired and
/// stood at the front of a queue.
///
/// If no note of an operation is waiting in the engine `before`, the
/// entry in `slot` stands at the front of one of its queues and can no
/// longer be seen at `now`, and `after` is the engine after `sync` at
/// `now`, then `after` holds no entry of that key and hash.
pub proof fn law_sync_forgets_expired_front<K: PartialEq, V>(
    before: BaseCache<K, V>,
    after: BaseCache<K, V>,
    queue: u8,
    slot: usize,
    now: u64,
)
    requires
        before.wf(),
        after.wf(),
        after.model() == before.model().synced(now),
        before.pending_reads() == 0,
        before.pending_writes() == 0,
        doomed(before.model().inner, queue, slot, now),
    ensures
        !after@.contains_key(
            (before.model().inner.entry(slot).key, before.model().inner.entry(slot).hash),
        ),
{
    let old_state = before.model().inner;
    let new_state = after.model().inner;
    let key = old_state.entry(slot).key;
    let hash = old_state.entry(slot).hash;
    before.lemma_model();
    law_sync_removes_expired_front(before.model(), queue, slot, now);
    after.lemma_entries();
    before.lemma_one_slot_per_key();
    if after@.contains_key((key, hash)) {
        let t = new_state.slot_of(key, hash)->0;
        assert(new_state.keeps(t, key, hash));
        assert(new_state.occupied(t));
        assert(old_state.occupied(t) && old_state.entry(t) == new_state.entry(t));
        assert(old_state.occupied(slot));
        assert(t == slot);
    }
}

/// Whether every entry stands in the queue `queue` and can no longer be
/// seen at `now`.
pub open spec fn all_dead_in<K, V>(state: CoreView<K, V>, queue: u8, now: u64) -> bool {
    &&& queue < 5
    &&& queue_of(state.queues, queue).no_duplicates()
    &&& forall|s: usize| #[trigger]
        state.occupied(s) ==> queue_of(state.queues, queue).contains(s) && state.dead(s, now)
}

/// Dropping a slot leaves every entry in the queue and unseen, and takes
/// the slot out of the queue.
proof fn lemma_drop_keeps_dead<K, V>(state: CoreView<K, V>, x: usize, queue: u8, now: u64)
    requires
        all_dead_in(state, queue, now),
    ensures
        all_dead_in(state.dropped(x), queue, now),
        queue_of(state.dropped(x).queues, queue) == dropped(queue_of(state.queues, queue), x),
        queue_of(state.dropped(x).queues, queue).len() == queue_of(state.queues, queue).len() - (
        if queue_of(state.queues, queue).contains(x) {
            1int
        } else {
            0int
        }),
{
    let q = queue_of(state.queues, queue);
    lemma_dropped(q, x);
    let next = state.dropped(x);
    assert forall|s: usize| #[trigger] next.occupied(s) implies queue_of(
        next.queues,
        queue,
    ).contains(s) && next.dead(s, now) by {
        assert(state.occupied(s));
        assert(s != x);
        assert(next.entry(s) == state.entry(s));
    }
}

/// Relieving a queue of what can no longer be seen leaves every entry in
/// the queue `queue` and unseen, and makes that queue no longer.
proof fn lemma_expiry_keeps_dead<K, V>(
    state: CoreView<K, V>,
    from: u8,
    budget: nat,
    queue: u8,
    now: u64,
)
    requires
        all_dead_in(state, queue, now),
    ensures
        all_dead_in(state.queue_expired(from, now, budget), queue, now),
        queue_of(state.queue_expired(from, now, budget).queues, queue).len() <= queue_of(
            state.queues,
            queue,
        ).len(),
        from == queue && queue_of(state.queues, queue).len() <= budget ==> queue_of(
            state.queue_expired(from, now, budget).queues,
            queue,
        ).len() == 0,
    decreases budget,
{
    if budget > 0 {
        match state.front_of(from) {
            Some(x) => {
                if state.dead(x, now) {
                    lemma_drop_keeps_dead(state, x, queue, now);
                    lemma_expiry_keeps_dead(
                        state.dropped(x),
                        from,
                        (budget - 1) as nat,
                        queue,
                        now,
                    );
                    if from == queue {
                        assert(queue_of(state.queues, queue)[0] == x);
                        assert(queue_of(state.queues, queue).contains(x));
                    }
                } else {
                    if from == queue {
                        assert(queue_of(state.queues, queue)[0] == x);
                        assert(queue_of(state.queues, queue).contains(x));
                        assert(!state.occupied(x) || state.dead(x, now));
                    }
                }
            },
            None => {},
        }
    }
}

/// After the queues from `from` on were relieved of what could no longer
/// be seen, no entry is left, if every entry stood in one of them and
/// could no longer be seen.
proof fn lemma_expiry_leaves_none<K, V>(state: CoreView<K, V>, from: u8, queue: u8, now: u64)
    requires
        all_dead_in(state, queue, now),
        from <= queue && queue_of(state.queues, queue).len() <= EVICTION_BATCH || queue_of(
            state.queues,
            queue,
        ).len() == 0,
    ensures
        forall|s: usize| !(#[trigger] state.expired_from(from, now).occupied(s)),
    decreases 5 - from,
{
    if from < 5 {
        let next = state.queue_expired(from, now, EVICTION_BATCH as nat);
        lemma_expiry_keeps_dead(state, from, EVICTION_BATCH as nat, queue, now);
        lemma_expiry_leaves_none(next, (from + 1) as u8, queue, now);
    } else {
        assert forall|s: usize| !(#[trigger] state.occupied(s)) by {
            if state.occupied(s) {
                assert(queue_of(state.queues, queue).contains(s));
            }
        }
    }
}

/// The housekeeper empties a cache whose entries have all expired.
///
/// If no note of an operation is waiting, and every entry stands in one
/// queue of no more than `EVICTION_BATCH` members and can no longer be
/// seen at `now`, then after `sync` at `now` no slot holds an entry.
pub proof fn law_sync_removes_all_expired<K, V>(state: EngineView<K, V>, queue: u8, now: u64)
    requires
        state.reads.len() == 0,
        state.writes.len() == 0,
        all_dead_in(state.inner, queue, now),
        queue_of(state.inner.queues, queue).len() <= EVICTION_BATCH,
    ensures
        forall|s: usize| !(#[trigger] state.synced(now).inner.occupied(s)),
{
    let replayed = state.inner.reads_replayed(state.reads).writes_replayed(state.writes);
    assert(replayed == state.inner);
    lemma_expiry_leaves_none(state.inner, 0, queue, now);
    let relieved = state.inner.expired_from(0, now);
    let settled = EngineView {
        inner: relieved.enforced(),
        reads: Seq::<Op>::empty(),
        writes: Seq::<Op>::empty(),
        ..state
    };
    assert(state.ticked(now) == settled.swept_from(0, state.sweeps.len()));
    assert forall|s: usize| !(#[trigger] state.synced(now).inner.occupied(s)) by {
        assert(!relieved.occupied(s));
        lemma_enforcing_fills_none(relieved, relieved.queues.population(), s);
        lemma_sweeping_fills_none(settled, 0, state.sweeps.len(), s);
        assert(state.synced(now) == state.ticked(now));
    }
}

/// After `sync`, a cache whose entries had all expired is empty.
///
/// If entries expire after a time to live or a time to idle, no note of
/// an operation is waiting in the engine `before`, none of its entries
/// can be seen at `now`, it has no more than `EVICTION_BATCH` slots, and
/// `after` is the engine after `sync` at `now`, then `after` holds no
/// entry.
pub proof fn law_sync_empties_expired_cache<K: PartialEq, V>(
    before: BaseCache<K, V>,
    after: BaseCache<K, V>,
    now: u64,
)
    requires
        before.wf(),
        after.wf(),
        after.model() == before.model().synced(now),
        before.pending_reads() == 0,
        before.pending_writes() == 0,
        before.rules().time_to_live is Some || before.rules().time_to_idle is Some,
        forall|id: (K, u64)| #[trigger]
            before@.contains_key(id) ==> !visible(before@[id], before.rules(), now),
        before.slot_count() <= EVICTION_BATCH,
    ensures
        after@ == Map::<(K, u64), Record<V>>::empty(),
{
    let state = before.model().inner;
    let queue: u8 = if before.rules().time_to_live is Some {
        0
    } else {
        1
    };
    before.lemma_model();
    before.lemma_queues();
    before.lemma_entries();
    before.lemma_one_slot_per_key();
    let q = queue_of(state.queues, queue);
    assert forall|s: usize| #[trigger] state.occupied(s) implies q.contains(s) && state.dead(
        s,
        now,
    ) by {
        assert(state.queues.linked(s));
        let e = state.entry(s);
        assert(state.keeps(s, e.key, e.hash));
        let t = state.slot_of(e.key, e.hash)->0;
        assert(state.keeps(t, e.key, e.hash));
        assert(state.occupied(t));
        assert(t == s);
        assert(before@.contains_key((e.key, e.hash)));
    }
    assert forall|j: int| 0 <= j < q.len() implies #[trigger] q[j] < state.slots.len() by {
        assert(q.contains(q[j]));
        assert(state.queues.linked(q[j]));
    }
    lemma_distinct_bounded(q, state.slots.len());
    law_sync_removes_all_expired(before.model(), queue, now);
    after.lemma_entries();
    assert forall|id: (K, u64)| !(#[trigger] after@.contains_key(id)) by {
        if after@.contains_key(id) {
            let t = after.model().inner.slot_of(id.0, id.1)->0;
            assert(after.model().inner.keeps(t, id.0, id.1));
            assert(after.model().inner.occupied(t));
        }
    }
    assert(after@ =~= Map::<(K, u64), Record<V>>::empty());
}

} // verus!
