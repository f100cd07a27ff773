use cachekit::base::has_expired;
use cachekit::base::BaseCache;
use cachekit::base::PredicateError;
use cachekit::base::Rules;
use cachekit::buffer::Op;
use cachekit::buffer::OpBuffer;
use cachekit::buffer::OpKind;
use cachekit::clock::lasting;
use cachekit::clock::later_of;
use cachekit::clock::share_clock;
use cachekit::clock::span;
use cachekit::clock::to_span;
use cachekit::clock::Timeline;
use cachekit::initializer::InitTurn;
use cachekit::initializer::ValueInitializer;
use cachekit::order::LinkedOrder;
use cachekit::policy::wins_admission;
use cachekit::policy::Policy;
use cachekit::sketch::FrequencySketch;
use cachekit::table::Table;
use quanta::Clock;
use std::sync::Arc;
use std::time::Duration;

fn note(kind: OpKind, slot: usize) -> Op {
    Op { kind, hash: slot as u64 * 31, slot, stamp: 7 }
}

#[test]
fn buffer_is_first_in_first_out_and_bounded() {
    let mut buf = OpBuffer::with_capacity(3);
    assert_eq!(buf.len(), 0);
    assert!(buf.take().is_none());

    assert!(buf.offer(note(OpKind::Insert, 1)));
    assert!(buf.offer(note(OpKind::Update, 2)));
    assert!(buf.offer(note(OpKind::Remove, 3)));
    assert_eq!(buf.len(), 3);
    // A full buffer hands the note back and keeps what it holds.
    assert!(!buf.offer(note(OpKind::Read, 4)));
    assert_eq!(buf.len(), 3);

    let first = buf.take().unwrap();
    assert!(first.kind == OpKind::Insert);
    assert_eq!(first.slot, 1);
    assert_eq!(first.hash, 31);
    assert_eq!(first.stamp, 7);
    assert_eq!(buf.len(), 2);
    assert!(buf.offer(note(OpKind::Read, 5)));

    let second = buf.take().unwrap();
    assert!(second.kind == OpKind::Update);
    assert_eq!(second.slot, 2);
    let third = buf.take().unwrap();
    assert!(third.kind == OpKind::Remove);
    assert_eq!(third.slot, 3);
    let fourth = buf.take().unwrap();
    assert!(fourth.kind == OpKind::Read);
    assert_eq!(fourth.slot, 5);
    assert!(buf.take().is_none());
    assert_eq!(buf.len(), 0);
}

#[test]
fn durations_are_counted_in_nanoseconds() {
    assert_eq!(span(&Duration::from_secs(10)), 10_000_000_000);
    assert_eq!(span(&Duration::from_nanos(1)), 1);
    assert_eq!(span(&Duration::ZERO), 0);
    assert_eq!(span(&Duration::from_nanos(u64::MAX)), u64::MAX);
    // Longer than can be counted: as long as can be counted.
    assert_eq!(span(&Duration::MAX), u64::MAX);
    assert_eq!(span(&Duration::from_secs(u64::MAX)), u64::MAX);
}

#[test]
fn time_never_runs_back() {
    assert_eq!(later_of(5, 9), 9);
    assert_eq!(later_of(9, 5), 9);
    assert_eq!(later_of(4, 4), 4);

    let (clock, mock) = Clock::mock();
    mock.increment(1_000u64);
    let mut line = Timeline::starting_with(clock);
    // The line starts at the clock's reading.
    assert_eq!(line.now(), 0);
    mock.increment(40u64);
    assert_eq!(line.now(), 40);
    mock.decrement(30u64);
    assert_eq!(line.now(), 40);
    mock.increment(35u64);
    assert_eq!(line.now(), 45);
}

#[test]
fn machine_clock_moves_forward() {
    let mut line = Timeline::new();
    let a = line.now();
    let b = line.now();
    assert!(b >= a);
}

#[test]
fn sketch_counts_and_saturates() {
    let mut sketch = FrequencySketch::with_capacity(100);
    assert_eq!(sketch.frequency(42), 0);
    sketch.increment(42);
    assert_eq!(sketch.frequency(42), 1);
    sketch.increment(42);
    sketch.increment(42);
    assert_eq!(sketch.frequency(42), 3);
    assert_eq!(sketch.frequency(43), 0);
    for _ in 0..40 {
        sketch.increment(42);
    }
    assert_eq!(sketch.frequency(42), 15);
}

#[test]
fn sketch_ages_after_a_sample() {
    // A table of 64 words is aged by the 640th event that raises a counter:
    // every counter is halved.
    let mut sketch = FrequencySketch::with_capacity(1);
    for _ in 0..15 {
        sketch.increment(7);
    }
    assert_eq!(sketch.frequency(7), 15);
    // An event that finds its counters full is not counted.
    for _ in 0..100 {
        sketch.increment(7);
    }
    let mut hash: u64 = 1_000;
    for _ in 0..624 {
        sketch.increment(hash);
        hash += 1;
    }
    assert_eq!(sketch.frequency(7), 15);
    sketch.increment(hash);
    assert_eq!(sketch.frequency(7), 7);
}

#[test]
fn order_keeps_the_sequence() {
    let mut q = LinkedOrder::new();
    assert_eq!(q.len(), 0);
    assert_eq!(q.front(), None);
    assert_eq!(q.pop_front(), None);
    q.push_back(5);
    q.push_back(0);
    q.push_back(9);
    assert_eq!(q.len(), 3);
    assert_eq!(q.front(), Some(5));
    assert!(q.contains(0));
    assert!(!q.contains(1));
    assert!(!q.contains(1_000));

    q.move_to_back(5);
    assert_eq!(q.front(), Some(0));
    q.remove(9);
    assert!(!q.contains(9));
    assert_eq!(q.len(), 2);
    assert_eq!(q.pop_front(), Some(0));
    assert_eq!(q.pop_front(), Some(5));
    assert_eq!(q.pop_front(), None);
    assert_eq!(q.len(), 0);
    q.push_back(9);
    assert_eq!(q.front(), Some(9));
}

#[test]
fn admission_needs_a_higher_frequency() {
    assert!(wins_admission(3, 2));
    assert!(!wins_admission(2, 2));
    assert!(!wins_admission(1, 2));
    assert!(!wins_admission(0, 0));
    assert!(wins_admission(15, 14));
}

#[test]
fn policy_moves_entries_between_queues() {
    // Capacity 10: no window, protected queue of 8.
    let mut p = Policy::new(10, true, true);
    assert_eq!(p.population(), 0);
    assert_eq!(p.overflow_candidate(), None);
    p.link(0);
    assert_eq!(p.overflow_candidate(), Some(0));
    p.admit_to_main(0);
    p.link(1);
    p.admit_to_main(1);
    p.link(2);
    p.admit_to_main(2);
    assert_eq!(p.overflow_candidate(), None);
    assert_eq!(p.population(), 3);
    assert_eq!(p.probation_front(), Some(0));
    assert_eq!(p.protected_front(), None);
    assert_eq!(p.write_front(), Some(0));
    assert_eq!(p.idle_front(), Some(0));

    // A read promotes from probation to the protected queue.
    p.on_read(0);
    assert_eq!(p.probation_front(), Some(1));
    assert_eq!(p.protected_front(), Some(0));
    assert_eq!(p.idle_front(), Some(1));
    assert_eq!(p.write_front(), Some(0));
    // A write renews both expiration queues.
    p.on_write(1);
    assert_eq!(p.protected_front(), Some(0));
    assert_eq!(p.probation_front(), Some(2));
    assert_eq!(p.write_front(), Some(0));
    assert_eq!(p.idle_front(), Some(2));
    p.on_write(0);
    assert_eq!(p.write_front(), Some(2));
    assert_eq!(p.protected_front(), Some(1));

    assert!(p.is_linked(2));
    p.unlink(2);
    assert!(!p.is_linked(2));
    assert_eq!(p.population(), 2);
    assert_eq!(p.probation_front(), None);
    assert_eq!(p.write_front(), Some(1));
    assert!(!p.over_capacity());
}

#[test]
fn protected_queue_overflows_into_probation() {
    // Capacity 2: no window, and a protected queue of 2 / 5 * 4 = 0 entries,
    // so a promoted entry falls back to probation at once.
    let mut p = Policy::new(2, false, false);
    p.link(0);
    p.admit_to_main(0);
    p.link(1);
    p.admit_to_main(1);
    assert_eq!(p.probation_front(), Some(0));
    p.on_read(0);
    assert_eq!(p.protected_front(), None);
    assert_eq!(p.probation_front(), Some(1));
    assert_eq!(p.write_front(), None);
    assert_eq!(p.idle_front(), None);

    // Capacity 200: a window of 2, a protected queue of 156.
    let mut p = Policy::new(200, false, false);
    p.link(0);
    p.link(1);
    assert_eq!(p.overflow_candidate(), None);
    p.link(2);
    assert_eq!(p.overflow_candidate(), Some(0));
    assert_eq!(p.window_front(), Some(0));
    p.on_read(0);
    assert_eq!(p.overflow_candidate(), Some(1));
}

#[test]
fn table_finds_what_it_holds() {
    let mut t: Table<&str, u32> = Table::new(4);
    assert_eq!(t.len(), 0);
    assert_eq!(t.find(&"a", 1), None);
    let a = t.insert_new("a", 1, 10, 100);
    let b = t.insert_new("b", 1, 20, 101);
    let c = t.insert_new("c", 17, 30, 102);
    assert_eq!(t.len(), 3);
    assert_eq!(t.slot_count(), 3);
    assert_eq!(t.find(&"a", 1), Some(a));
    assert_eq!(t.find(&"b", 1), Some(b));
    assert_eq!(t.find(&"c", 17), Some(c));
    // The hash is part of what is looked for.
    assert_eq!(t.find(&"c", 1), None);
    assert_eq!(t.find(&"d", 1), None);

    let e = t.peek(b).unwrap();
    assert_eq!(e.key, "b");
    assert_eq!(e.value, 20);
    assert_eq!(e.modified, 101);
    assert_eq!(e.accessed, 101);
    assert!(!e.admitted);
    assert!(!e.invalidated);
    let stamp = e.stamp;

    t.touch(b, 150);
    assert_eq!(t.peek(b).unwrap().accessed, 150);
    assert_eq!(t.peek(b).unwrap().modified, 101);
    assert_eq!(t.rewrite(b, 21, 160), 20);
    assert_eq!(t.peek(b).unwrap().value, 21);
    assert_eq!(t.peek(b).unwrap().modified, 160);
    t.set_admitted(b, true);
    t.mark_invalidated(b);
    assert!(t.peek(b).unwrap().admitted);
    assert!(t.peek(b).unwrap().invalidated);
    assert_eq!(t.rewrite(b, 22, 170), 21);
    assert!(!t.peek(b).unwrap().invalidated);
    assert_eq!(t.peek(b).unwrap().stamp, stamp);

    let gone = t.retire(b);
    assert_eq!(gone.value, 22);
    assert_eq!(t.len(), 2);
    assert_eq!(t.find(&"b", 1), None);
    assert!(t.peek(b).is_none());
    assert_eq!(t.retired_stamp(b), Some(stamp));
    assert_eq!(t.retired_stamp(a), None);
    t.release(b);
    assert_eq!(t.retired_stamp(b), None);

    // A vacant slot is used again, under a new stamp.
    let d = t.insert_new("d", 5, 40, 200);
    assert_eq!(d, b);
    assert_eq!(t.slot_count(), 3);
    assert!(t.peek(d).unwrap().stamp != stamp);

    let evicted = t.evict(a);
    assert_eq!(evicted.key, "a");
    assert_eq!(t.find(&"a", 1), None);
    assert_eq!(t.len(), 2);
    assert!(t.peek(1_000).is_none());
}

#[test]
fn expiry_formula() {
    let none = Rules { time_to_live: None, time_to_idle: None, valid_after: None };
    assert!(!has_expired(0, 0, &none, u64::MAX));

    let ttl = Rules { time_to_live: Some(10), time_to_idle: None, valid_after: None };
    assert!(!has_expired(5, 5, &ttl, 14));
    assert!(has_expired(5, 5, &ttl, 15));
    assert!(has_expired(5, 14, &ttl, 16));
    // A time to live that ends beyond the last instant never ends.
    assert!(!has_expired(u64::MAX - 3, 0, &ttl, u64::MAX));

    let tti = Rules { time_to_live: None, time_to_idle: Some(10), valid_after: None };
    assert!(!has_expired(5, 7, &tti, 16));
    assert!(has_expired(5, 7, &tti, 17));

    let swept = Rules { time_to_live: None, time_to_idle: None, valid_after: Some(20) };
    assert!(has_expired(19, 30, &swept, 0));
    assert!(!has_expired(20, 20, &swept, 100));

    let zero = Rules { time_to_live: Some(0), time_to_idle: None, valid_after: None };
    assert!(has_expired(5, 5, &zero, 5));
}

#[test]
fn engine_reads_and_writes_at_given_times() {
    let mut c: BaseCache<&str, u32> = BaseCache::new(
        10,
        None,
        Some(Duration::from_nanos(100)),
        Some(Duration::from_nanos(30)),
        true,
    );
    assert_eq!(c.max_capacity(), 10);
    assert_eq!(c.time_to_live(), Some(Duration::from_nanos(100)));
    assert_eq!(c.time_to_idle(), Some(Duration::from_nanos(30)));
    assert_eq!(c.table_size(), 0);

    c.insert_with_hash_at("a", 1, 10, 1_000);
    assert_eq!(c.get_with_hash_at(&"a", 1, 1_000), Some(10));
    // Another hash is another key.
    assert_eq!(c.get_with_hash_at(&"a", 2, 1_000), None);
    // Every read renews the time to idle, not the time to live.
    assert_eq!(c.get_with_hash_at(&"a", 1, 1_029), Some(10));
    assert_eq!(c.get_with_hash_at(&"a", 1, 1_058), Some(10));
    assert_eq!(c.get_with_hash_at(&"a", 1, 1_087), Some(10));
    assert_eq!(c.get_with_hash_at(&"a", 1, 1_099), Some(10));
    assert_eq!(c.get_with_hash_at(&"a", 1, 1_100), None);
    assert_eq!(c.table_size(), 1);
    c.sync_at(1_100);
    assert_eq!(c.table_size(), 0);

    c.insert_with_hash_at("b", 3, 20, 2_000);
    assert_eq!(c.get_with_hash_at(&"b", 3, 2_029), Some(20));
    assert_eq!(c.get_with_hash_at(&"b", 3, 2_059), None);
    // A write renews both times.
    c.insert_with_hash_at("b", 3, 21, 2_060);
    assert_eq!(c.get_with_hash_at(&"b", 3, 2_089), Some(21));
    c.invalidate_with_hash_at(&"b", 3, 2_090);
    assert_eq!(c.get_with_hash_at(&"b", 3, 2_090), None);
    assert_eq!(c.table_size(), 0);
}

#[test]
fn engine_applies_predicates_to_earlier_entries() {
    let mut c: BaseCache<u32, &str> = BaseCache::new(100, None, None, None, true);
    c.reconfigure_for_testing();
    c.insert_with_hash_at(0, 10, "alice", 5);
    c.insert_with_hash_at(1, 11, "bob", 5);
    c.insert_with_hash_at(2, 12, "alex", 5);
    c.insert_with_hash_at(3, 13, "alice", 10);
    let id0 = c.invalidate_entries_if_at(&|_k: &u32, v: &&str| *v == "alice" || *v == "alex", 10);
    assert!(id0.is_ok());
    assert_eq!(c.invalidation_predicate_count(), 1);
    let id1 = c.invalidate_entries_if_at(&|_k: &u32, _v: &&str| false, 10);
    assert!(id1.is_ok());
    assert!(id0 != id1);
    assert_eq!(c.invalidation_predicate_count(), 2);

    // Matched entries are gone at once, before they are reaped.
    assert_eq!(c.get_with_hash_at(&0, 10, 11), None);
    assert_eq!(c.get_with_hash_at(&2, 12, 11), None);
    assert_eq!(c.get_with_hash_at(&1, 11, 11), Some("bob"));
    // Written at the time of the registration: out of reach.
    assert_eq!(c.get_with_hash_at(&3, 13, 11), Some("alice"));
    assert_eq!(c.table_size(), 4);
    c.sync_at(12);
    assert_eq!(c.table_size(), 2);
    assert_eq!(c.invalidation_predicate_count(), 0);

    let mut plain: BaseCache<u32, &str> = BaseCache::new(100, None, None, None, false);
    plain.insert_with_hash_at(0, 10, "alice", 5);
    assert_eq!(
        plain.invalidate_entries_if_at(&|_k: &u32, _v: &&str| true, 10),
        Err(PredicateError::PredicatesDisabled)
    );
    assert_eq!(plain.get_with_hash_at(&0, 10, 11), Some("alice"));
}

#[test]
fn engine_invalidates_all_before_a_time() {
    let mut c: BaseCache<u32, u32> = BaseCache::new(100, None, None, None, false);
    c.reconfigure_for_testing();
    c.insert_with_hash_at(1, 1, 1, 10);
    c.insert_with_hash_at(2, 2, 2, 20);
    c.invalidate_all_at(20);
    assert_eq!(c.get_with_hash_at(&1, 1, 30), None);
    // Written at the very time of the invalidation: not before it.
    assert_eq!(c.get_with_hash_at(&2, 2, 30), Some(2));
    // An earlier invalidation does not shorten a later one.
    c.invalidate_all_at(15);
    assert_eq!(c.get_with_hash_at(&1, 1, 30), None);
    c.insert_with_hash_at(1, 1, 3, 19);
    assert_eq!(c.get_with_hash_at(&1, 1, 30), None);
    c.insert_with_hash_at(1, 1, 4, 20);
    assert_eq!(c.get_with_hash_at(&1, 1, 30), Some(4));
}

#[test]
fn engine_makes_room_when_the_write_buffer_is_full() {
    let mut c: BaseCache<u32, u32> = BaseCache::new(1_000, None, None, None, false);
    c.reconfigure_for_testing();
    for k in 0..600u32 {
        c.insert_with_hash_at(k, k as u64, k, 1);
    }
    assert_eq!(c.table_size(), 600);
    for k in 0..600u32 {
        assert_eq!(c.get_with_hash_at(&k, k as u64, 2), Some(k));
    }
    c.sync_at(3);
    assert_eq!(c.table_size(), 600);
    for k in 0..600u32 {
        c.invalidate_with_hash_at(&k, k as u64, 4);
    }
    assert_eq!(c.table_size(), 0);
    c.sync_at(5);
    assert_eq!(c.table_size(), 0);
}

#[test]
fn initializer_lets_one_caller_evaluate() {
    let mut init = ValueInitializer::<String>::new();
    assert!(init.is_idle());

    let first = init.begin(42);
    let ticket = match first {
        InitTurn::Evaluate(t) => t,
        InitTurn::Wait(_) => panic!("the first caller evaluates"),
    };
    assert!(!init.is_idle());
    assert!(init.is_pending(42, ticket));
    // Every other caller for the same hash waits for the first.
    for _ in 0..4 {
        assert_eq!(init.begin(42), InitTurn::Wait(ticket));
    }
    // A caller for another hash evaluates on its own.
    let other = match init.begin(43) {
        InitTurn::Evaluate(t) => t,
        InitTurn::Wait(_) => panic!("another key is free"),
    };
    assert!(other != ticket);

    // Only the holder of the ticket ends the round.
    assert!(!init.finish(42, other));
    assert!(init.is_pending(42, ticket));
    assert!(init.finish(42, ticket));
    assert!(!init.is_pending(42, ticket));
    assert!(!init.finish(42, ticket));

    // After the round, whether it failed or not, the next caller evaluates.
    match init.begin(42) {
        InitTurn::Evaluate(t) => assert!(t != ticket),
        InitTurn::Wait(_) => panic!("the round is over"),
    }
}

#[test]
fn shared_clock_reads_the_same_time() {
    let (clock, mock) = Clock::mock();
    let other = share_clock(&clock);
    let mut first = Timeline::starting_with(clock);
    let mut second = Timeline::starting_with(other);
    mock.increment(40u64);
    assert_eq!(first.now(), 40);
    assert_eq!(second.now(), 40);
    mock.increment(2u64);
    assert_eq!(second.now(), 42);
    assert_eq!(first.now(), 42);

    // A line over another clock goes by that clock.
    let (apart, apart_mock) = Clock::mock();
    let mut third = Timeline::starting_with(apart);
    apart_mock.increment(7u64);
    assert_eq!(third.now(), 7);
    assert_eq!(first.now(), 42);
}

#[test]
fn waiters_share_the_error_of_a_failed_round() {
    let mut init = ValueInitializer::<String>::new();
    let ticket = match init.begin(7) {
        InitTurn::Evaluate(t) => t,
        InitTurn::Wait(_) => panic!("the first caller evaluates"),
    };
    assert_eq!(init.waiting_count(ticket), 0);
    assert_eq!(init.begin(7), InitTurn::Wait(ticket));
    assert_eq!(init.begin(7), InitTurn::Wait(ticket));
    assert_eq!(init.waiting_count(ticket), 2);

    let error = Arc::new(String::from("no value today"));
    init.finish_failed(7, ticket, Arc::clone(&error));
    assert!(!init.is_pending(7, ticket));
    assert!(init.is_idle());

    // Each of the two that waited is told the error of the round.
    let first = init.leave(ticket).expect("the round failed");
    assert!(Arc::ptr_eq(&first, &error));
    assert_eq!(init.waiting_count(ticket), 1);
    let second = init.leave(ticket).expect("the round failed");
    assert!(Arc::ptr_eq(&second, &error));
    assert_eq!(*second, "no value today");
    assert_eq!(init.waiting_count(ticket), 0);

    // The error went with the last of them.
    drop(first);
    drop(second);
    assert_eq!(Arc::strong_count(&error), 1);
    assert!(init.leave(ticket).is_none());
    assert_eq!(init.waiting_count(ticket), 0);
}

#[test]
fn failed_round_without_waiters_keeps_nothing() {
    let mut init = ValueInitializer::<String>::new();
    let ticket = match init.begin(7) {
        InitTurn::Evaluate(t) => t,
        InitTurn::Wait(_) => panic!("the first caller evaluates"),
    };
    let error = Arc::new(String::from("nobody hears this"));
    init.finish_failed(7, ticket, Arc::clone(&error));
    assert_eq!(Arc::strong_count(&error), 1);
    assert!(init.leave(ticket).is_none());

    // The next caller evaluates again, under another ticket.
    match init.begin(7) {
        InitTurn::Evaluate(t) => assert_eq!(t, ticket + 1),
        InitTurn::Wait(_) => panic!("the round is over"),
    }
}

#[test]
fn waiters_of_a_round_that_succeeded_are_told_nothing() {
    let mut init = ValueInitializer::<String>::new();
    let ticket = match init.begin(9) {
        InitTurn::Evaluate(t) => t,
        InitTurn::Wait(_) => panic!("the first caller evaluates"),
    };
    assert_eq!(init.begin(9), InitTurn::Wait(ticket));
    assert!(init.finish(9, ticket));
    assert_eq!(init.waiting_count(ticket), 1);
    assert!(init.leave(ticket).is_none());
    assert_eq!(init.waiting_count(ticket), 0);
}

#[test]
fn spans_count_nanoseconds() {
    assert_eq!(to_span(0), 0);
    assert_eq!(to_span(1_500), 1_500);
    assert_eq!(to_span(u64::MAX as u128), u64::MAX);
    assert_eq!(to_span(u64::MAX as u128 + 1), u64::MAX);
    assert_eq!(to_span(u128::MAX), u64::MAX);

    assert_eq!(lasting(0), Duration::ZERO);
    assert_eq!(lasting(10_000_000_000), Duration::from_secs(10));
    assert_eq!(span(&lasting(77)), 77);
    assert_eq!(span(&lasting(u64::MAX)), u64::MAX);
}

#[test]
fn engine_built_from_spans_expires_entries() {
    let mut c: BaseCache<&str, u32> = BaseCache::with_spans(100, None, Some(10), Some(4), false);
    assert_eq!(c.max_capacity(), 100);
    assert_eq!(c.time_to_live(), Some(Duration::from_nanos(10)));
    assert_eq!(c.time_to_idle(), Some(Duration::from_nanos(4)));

    c.insert_with_hash_at("a", 1, 11, 0);
    assert_eq!(c.get_with_hash_at(&"a", 1, 3), Some(11));
    // Read at 3, so idle from 7 on; read again at 6.
    assert_eq!(c.get_with_hash_at(&"a", 1, 6), Some(11));
    assert_eq!(c.get_with_hash_at(&"a", 1, 9), Some(11));
    // Written at 0, so dead from 10 on, however recently it was read.
    assert_eq!(c.get_with_hash_at(&"a", 1, 10), None);

    c.insert_with_hash_at("b", 2, 22, 20);
    assert_eq!(c.get_with_hash_at(&"b", 2, 23), Some(22));
    c.insert_with_hash_at("c", 3, 33, 20);
    // Not read since 20, so idle at 24.
    assert_eq!(c.get_with_hash_at(&"c", 3, 24), None);

    let plain: BaseCache<&str, u32> = BaseCache::with_spans(5, Some(2), None, None, true);
    assert_eq!(plain.time_to_live(), None);
    assert_eq!(plain.time_to_idle(), None);
}

#[test]
fn timeline_goes_on_with_another_clock() {
    let (clock, mock) = Clock::mock();
    let mut line = Timeline::starting_with(clock);
    mock.increment(40u64);
    assert_eq!(line.now(), 40);

    let (other, other_mock) = Clock::mock();
    other_mock.increment(1_000u64);
    line.switch_to(other);
    assert_eq!(line.now(), 40);
    other_mock.increment(5u64);
    assert_eq!(line.now(), 45);
    // The clock that was left no longer counts.
    mock.increment(100u64);
    assert_eq!(line.now(), 45);
}

#[test]
fn sync_empties_a_cache_whose_entries_have_expired() {
    let mut c: BaseCache<u32, u32> = BaseCache::with_spans(100, None, Some(10), None, false);
    for k in 0..20u32 {
        c.insert_with_hash_at(k, k as u64 * 7919, k, k as u64 / 4);
    }
    c.sync_at(5);
    assert_eq!(c.table_size(), 20);
    // The entries written at 0 die at 10, and they stand in front.
    c.sync_at(10);
    assert_eq!(c.table_size(), 16);
    assert_eq!(c.get_with_hash_at(&0, 0, 10), None);
    assert_eq!(c.get_with_hash_at(&4, 4 * 7919, 10), Some(4));
    c.sync_at(10);
    // The last were written at 4 and die at 14.
    c.sync_at(13);
    assert_eq!(c.table_size(), 4);
    c.sync_at(14);
    assert_eq!(c.table_size(), 0);

    // By the time to idle alone.
    let mut c: BaseCache<u32, u32> = BaseCache::with_spans(100, None, None, Some(10), false);
    for k in 0..5u32 {
        c.insert_with_hash_at(k, k as u64 * 7919, k, 0);
    }
    c.sync_at(0);
    assert_eq!(c.get_with_hash_at(&3, 3 * 7919, 6), Some(3));
    c.sync_at(10);
    assert_eq!(c.table_size(), 1);
    c.sync_at(15);
    assert_eq!(c.table_size(), 1);
    c.sync_at(16);
    assert_eq!(c.table_size(), 0);
}
