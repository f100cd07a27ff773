use cachekit::initializer::Entered;
use cachekit::initializer::InitTurn;
use cachekit::initializer::ValueInitializer;
use cachekit::Cache;
use quanta::Clock;
use std::collections::hash_map::RandomState;
use std::collections::HashSet;
use std::sync::Arc;
use std::time::Duration;

#[test]
fn cache_basic_single_thread() {
    let mut cache = Cache::new(3);
    cache.reconfigure_for_testing();

    cache.insert("a", "alice");
    cache.insert("b", "bob");
    assert_eq!(cache.get(&"a"), Some("alice"));
    assert_eq!(cache.get(&"b"), Some("bob"));
    cache.sync();

    cache.insert("c", "cindy");
    assert_eq!(cache.get(&"c"), Some("cindy"));
    cache.sync();

    assert_eq!(cache.get(&"a"), Some("alice"));
    assert_eq!(cache.get(&"b"), Some("bob"));
    cache.sync();

    // "d" should not be admitted because its frequency is too low.
    cache.insert("d", "david");
    cache.sync();
    assert_eq!(cache.get(&"d"), None);

    cache.insert("d", "david");
    cache.sync();
    assert_eq!(cache.get(&"d"), None);

    // "d" should be admitted and "c" should be evicted
    // because d's frequency is higher than c's.
    cache.insert("d", "dennis");
    cache.sync();
    assert_eq!(cache.get(&"a"), Some("alice"));
    assert_eq!(cache.get(&"b"), Some("bob"));
    assert_eq!(cache.get(&"c"), None);
    assert_eq!(cache.get(&"d"), Some("dennis"));

    cache.invalidate(&"b");
    assert_eq!(cache.get(&"b"), None);
}

#[test]
fn cache_invalidate_all() {
    let mut cache = Cache::new(100);
    cache.reconfigure_for_testing();

    cache.insert("a", "alice");
    cache.insert("b", "bob");
    cache.insert("c", "cindy");
    assert_eq!(cache.get(&"a"), Some("alice"));
    assert_eq!(cache.get(&"b"), Some("bob"));
    assert_eq!(cache.get(&"c"), Some("cindy"));
    cache.sync();

    cache.invalidate_all();
    cache.sync();

    cache.insert("d", "david");
    cache.sync();

    assert!(cache.get(&"a").is_none());
    assert!(cache.get(&"b").is_none());
    assert!(cache.get(&"c").is_none());
    assert_eq!(cache.get(&"d"), Some("david"));
}

#[test]
fn time_to_live() {
    let mut cache = Cache::with_everything(
        100,
        None,
        RandomState::new(),
        Some(Duration::from_secs(10)),
        None,
        false,
    );
    cache.reconfigure_for_testing();

    let (clock, mock) = Clock::mock();
    cache.set_expiration_clock(Some(clock));

    cache.insert("a", "alice");
    cache.sync();

    mock.increment(Duration::from_secs(5)); // 5 secs from the start.
    cache.sync();

    cache.get(&"a");

    mock.increment(Duration::from_secs(5)); // 10 secs.
    cache.sync();

    assert_eq!(cache.get(&"a"), None);
    assert!(cache.is_table_empty());

    cache.insert("b", "bob");
    cache.sync();

    assert_eq!(cache.table_size(), 1);

    mock.increment(Duration::from_secs(5)); // 15 secs.
    cache.sync();

    assert_eq!(cache.get(&"b"), Some("bob"));
    assert_eq!(cache.table_size(), 1);

    cache.insert("b", "bill");
    cache.sync();

    mock.increment(Duration::from_secs(5)); // 20 secs
    cache.sync();

    assert_eq!(cache.get(&"b"), Some("bill"));
    assert_eq!(cache.table_size(), 1);

    mock.increment(Duration::from_secs(5)); // 25 secs
    cache.sync();

    assert_eq!(cache.get(&"a"), None);
    assert_eq!(cache.get(&"b"), None);
    assert!(cache.is_table_empty());
}

#[test]
fn time_to_idle() {
    let mut cache = Cache::with_everything(
        100,
        None,
        RandomState::new(),
        None,
        Some(Duration::from_secs(10)),
        false,
    );
    cache.reconfigure_for_testing();

    let (clock, mock) = Clock::mock();
    cache.set_expiration_clock(Some(clock));

    cache.insert("a", "alice");
    cache.sync();

    mock.increment(Duration::from_secs(5)); // 5 secs from the start.
    cache.sync();

    assert_eq!(cache.get(&"a"), Some("alice"));

    mock.increment(Duration::from_secs(5)); // 10 secs.
    cache.sync();

    cache.insert("b", "bob");
    cache.sync();

    assert_eq!(cache.table_size(), 2);

    mock.increment(Duration::from_secs(5)); // 15 secs.
    cache.sync();

    assert_eq!(cache.get(&"a"), None);
    assert_eq!(cache.get(&"b"), Some("bob"));
    assert_eq!(cache.table_size(), 1);

    mock.increment(Duration::from_secs(10)); // 25 secs
    cache.sync();

    assert_eq!(cache.get(&"a"), None);
    assert_eq!(cache.get(&"b"), None);
    assert!(cache.is_table_empty());
}

#[test]
fn cache_invalidate_entries_if() {
    let mut cache = Cache::with_everything(100, None, RandomState::new(), None, None, true);
    cache.reconfigure_for_testing();

    let (clock, mock) = Clock::mock();
    cache.set_expiration_clock(Some(clock));

    cache.insert(0, "alice");
    cache.insert(1, "bob");
    cache.insert(2, "alex");
    cache.sync();

    mock.increment(Duration::from_secs(5)); // 5 secs from the start.
    cache.sync();

    assert_eq!(cache.get(&0), Some("alice"));
    assert_eq!(cache.get(&1), Some("bob"));
    assert_eq!(cache.get(&2), Some("alex"));

    let names = ["alice", "alex"].iter().cloned().collect::<HashSet<_>>();
    cache
        .invalidate_entries_if(move |_k, &v| names.contains(v))
        .unwrap();
    assert_eq!(cache.invalidation_predicate_count(), 1);

    mock.increment(Duration::from_secs(5)); // 10 secs from the start.

    cache.insert(3, "alice");

    cache.sync();
    cache.sync();

    assert!(cache.get(&0).is_none());
    assert!(cache.get(&2).is_none());
    assert_eq!(cache.get(&1), Some("bob"));
    // This should survive as it was inserted after calling invalidate_entries_if.
    assert_eq!(cache.get(&3), Some("alice"));
    assert_eq!(cache.table_size(), 2);
    assert_eq!(cache.invalidation_predicate_count(), 0);

    mock.increment(Duration::from_secs(5)); // 15 secs from the start.

    cache.invalidate_entries_if(|_k, &v| v == "alice").unwrap();
    cache.invalidate_entries_if(|_k, &v| v == "bob").unwrap();
    assert_eq!(cache.invalidation_predicate_count(), 2);

    cache.sync();
    cache.sync();

    assert!(cache.get(&1).is_none());
    assert!(cache.get(&3).is_none());
    assert_eq!(cache.table_size(), 0);
    assert_eq!(cache.invalidation_predicate_count(), 0);
}

#[test]
fn invalidate_entries_if_needs_support() {
    let mut cache: Cache<u32, &str> = Cache::new(10);
    cache.insert(1, "one");
    let r = cache.invalidate_entries_if(|_k, _v| true);
    assert_eq!(r, Err(cachekit::PredicateError::PredicatesDisabled));
    assert_eq!(cache.invalidation_predicate_count(), 0);
    assert_eq!(cache.get(&1), Some("one"));
}

#[test]
fn get_or_insert_with_evaluates_once() {
    let mut cache: Cache<u32, String> = Cache::new(100);
    let mut evaluations = 0;

    let v = cache.get_or_insert_with(0, || {
        evaluations += 1;
        "first".to_string()
    });
    assert_eq!(v, "first");
    assert_eq!(cache.get(&0), Some("first".to_string()));

    for _ in 0..4 {
        let v = cache.get_or_insert_with(0, || unreachable!());
        assert_eq!(v, "first");
    }
    assert_eq!(evaluations, 1);

    // Another key is initialized on its own.
    assert_eq!(cache.get(&1), None);
    let v = cache.get_or_insert_with(1, || "second".to_string());
    assert_eq!(v, "second");
    assert_eq!(cache.get(&1), Some("second".to_string()));
}

#[test]
fn get_or_try_insert_with_retries_after_failure() {
    let mut cache: Cache<u32, &str> = Cache::new(100);

    let r = cache.get_or_try_insert_with(0, || Err::<&str, String>("first error".to_string()));
    match r {
        Ok(_) => panic!("the first function failed"),
        Err(e) => assert_eq!(*e, "first error".to_string()),
    }
    // Nothing is stored on failure.
    assert_eq!(cache.get(&0), None);
    assert_eq!(cache.table_size(), 0);

    // The next caller evaluates its own function.
    let r = cache.get_or_try_insert_with(0, || Ok::<&str, String>("second"));
    assert_eq!(r.unwrap(), "second");
    assert_eq!(cache.get(&0), Some("second"));

    // Later callers find the value and evaluate nothing.
    let r = cache.get_or_try_insert_with(0, || -> Result<&str, String> { unreachable!() });
    assert_eq!(r.unwrap(), "second");
    let v = cache.get_or_insert_with(0, || unreachable!());
    assert_eq!(v, "second");
}

#[test]
fn settings_are_reported() {
    let cache: Cache<u32, u32> = Cache::new(7);
    assert_eq!(cache.max_capacity(), 7);
    assert_eq!(cache.time_to_live(), None);
    assert_eq!(cache.time_to_idle(), None);
    assert_eq!(cache.num_segments(), 1);

    let cache: Cache<u32, u32> = Cache::with_everything(
        9,
        Some(4),
        RandomState::new(),
        Some(Duration::from_secs(3)),
        Some(Duration::from_millis(1500)),
        true,
    );
    assert_eq!(cache.max_capacity(), 9);
    assert_eq!(cache.time_to_live(), Some(Duration::from_secs(3)));
    assert_eq!(cache.time_to_idle(), Some(Duration::from_millis(1500)));
    assert!(cache.is_table_empty());
}

#[test]
fn capacity_holds_after_sync() {
    let mut cache: Cache<u32, u32> = Cache::new(10);
    for k in 0..1000 {
        cache.insert(k, k * 2);
    }
    cache.sync();
    assert!(cache.table_size() <= 10);
    // Whatever is left reads back what was stored.
    let mut found = 0;
    for k in 0..1000 {
        if let Some(v) = cache.get(&k) {
            assert_eq!(v, k * 2);
            found += 1;
        }
    }
    assert_eq!(found, cache.table_size());
}

#[test]
fn zero_capacity_keeps_nothing() {
    let mut cache: Cache<&str, u32> = Cache::new(0);
    cache.reconfigure_for_testing();
    cache.insert("a", 1);
    // Visible until the housekeeper has run.
    assert_eq!(cache.get(&"a"), Some(1));
    cache.sync();
    assert_eq!(cache.get(&"a"), None);
    assert!(cache.is_table_empty());
}

#[test]
fn insert_replaces_the_value() {
    let mut cache: Cache<&str, &str> = Cache::new(10);
    cache.insert("k", "old");
    cache.insert("k", "new");
    assert_eq!(cache.get(&"k"), Some("new"));
    cache.sync();
    assert_eq!(cache.table_size(), 1);
    assert_eq!(cache.get(&"k"), Some("new"));
    cache.invalidate(&"k");
    assert_eq!(cache.get(&"k"), None);
    cache.sync();
    assert!(cache.is_table_empty());
    // Invalidating what is not there changes nothing.
    cache.invalidate(&"k");
    assert!(cache.is_table_empty());
}

#[test]
fn invalidate_all_spares_later_entries() {
    let mut cache: Cache<&str, u32> = Cache::new(10);
    cache.reconfigure_for_testing();
    let (clock, mock) = Clock::mock();
    cache.set_expiration_clock(Some(clock));

    cache.insert("before", 1);
    mock.increment(Duration::from_secs(1));
    cache.invalidate_all();
    // Not returned even before the housekeeper has dropped it.
    assert_eq!(cache.get(&"before"), None);
    assert_eq!(cache.table_size(), 1);

    cache.insert("after", 2);
    assert_eq!(cache.get(&"after"), Some(2));
    cache.sync();
    assert_eq!(cache.get(&"before"), None);
    assert_eq!(cache.get(&"after"), Some(2));
    assert_eq!(cache.table_size(), 1);
}

#[test]
fn time_to_live_boundary() {
    let mut cache: Cache<&str, u32> = Cache::with_everything(
        10,
        None,
        RandomState::new(),
        Some(Duration::from_nanos(100)),
        None,
        false,
    );
    let (clock, mock) = Clock::mock();
    cache.set_expiration_clock(Some(clock));
    mock.increment(7u64);
    cache.insert("a", 1);
    mock.increment(99u64);
    // One nanosecond short of the time to live.
    assert_eq!(cache.get(&"a"), Some(1));
    mock.increment(1u64);
    // Reading does not renew the time to live.
    assert_eq!(cache.get(&"a"), None);
}

#[test]
fn time_to_idle_is_renewed_by_reads() {
    let mut cache: Cache<&str, u32> = Cache::with_everything(
        10,
        None,
        RandomState::new(),
        None,
        Some(Duration::from_secs(10)),
        false,
    );
    cache.reconfigure_for_testing();
    let (clock, mock) = Clock::mock();
    cache.set_expiration_clock(Some(clock));

    cache.insert("a", 1);
    mock.increment(Duration::from_secs(5));
    assert_eq!(cache.get(&"a"), Some(1));
    mock.increment(Duration::from_secs(6));
    cache.sync();
    // Eleven seconds after the insert, six after the read.
    assert_eq!(cache.get(&"a"), Some(1));
    mock.increment(Duration::from_secs(11));
    cache.sync();
    assert_eq!(cache.get(&"a"), None);
    assert!(cache.is_table_empty());
}

#[test]
fn clock_that_runs_back_does_not_revive_entries() {
    let mut cache: Cache<&str, u32> = Cache::with_everything(
        10,
        None,
        RandomState::new(),
        Some(Duration::from_secs(10)),
        None,
        false,
    );
    let (clock, mock) = Clock::mock();
    mock.increment(Duration::from_secs(100));
    cache.set_expiration_clock(Some(clock));
    cache.insert("a", 1);
    mock.increment(Duration::from_secs(10));
    assert_eq!(cache.get(&"a"), None);
    mock.decrement(Duration::from_secs(50));
    assert_eq!(cache.get(&"a"), None);
}

#[test]
fn housekeeping_runs_by_itself() {
    // Without a call of sync, the operations run the housekeeper when
    // enough notes are waiting.
    let mut cache: Cache<u32, u32> = Cache::new(5);
    for k in 0..10_000 {
        cache.insert(k, k);
        let _ = cache.get(&k);
    }
    assert!(cache.table_size() <= 5 + 256);
    cache.sync();
    assert!(cache.table_size() <= 5);
}

#[test]
fn cache_agrees_with_a_plain_map_while_within_capacity() {
    // A cache that never has to evict answers like a map with a time to
    // live, whatever the operations are.
    let ttl: u64 = 1_000;
    let mut cache: Cache<u64, u64> = Cache::with_everything(
        10_000,
        None,
        RandomState::new(),
        Some(Duration::from_nanos(ttl)),
        None,
        false,
    );
    let (clock, mock) = Clock::mock();
    cache.set_expiration_clock(Some(clock));

    let mut plain: std::collections::HashMap<u64, (u64, u64)> = std::collections::HashMap::new();
    let mut now: u64 = 0;
    let mut valid_after: u64 = 0;
    let mut seed: u64 = 0x2545_f491_4f6c_dd1d;
    for step in 0..20_000u64 {
        seed = seed.wrapping_mul(6364136223846793005).wrapping_add(1442695040888963407);
        let key = (seed >> 33) % 64;
        let what = (seed >> 20) % 16;
        if what < 6 {
            cache.insert(key, step);
            plain.insert(key, (step, now));
        } else if what < 12 {
            let expected = match plain.get(&key) {
                Some((v, written)) if *written + ttl > now && *written >= valid_after => Some(*v),
                _ => None,
            };
            assert_eq!(cache.get(&key), expected);
        } else if what < 13 {
            cache.invalidate(&key);
            plain.remove(&key);
        } else if what < 14 {
            cache.sync();
        } else if what == 14 && step % 7 == 0 {
            cache.invalidate_all();
            valid_after = now;
        } else {
            let by = (seed >> 40) % 200;
            mock.increment(by);
            now += by;
        }
    }
    cache.sync();
    assert!(cache.table_size() <= 64);
}

#[test]
fn time_to_live_is_not_renewed_by_reads() {
    let mut cache = Cache::with_everything(
        100,
        None,
        RandomState::new(),
        Some(Duration::from_secs(10)),
        None,
        false,
    );
    cache.reconfigure_for_testing();
    let (clock, mock) = Clock::mock();
    cache.set_expiration_clock(Some(clock));

    cache.insert("a", "alice");
    mock.increment(Duration::from_secs(5));
    assert_eq!(cache.get(&"a"), Some("alice"));
    mock.increment(Duration::from_secs(6));
    cache.sync();
    assert_eq!(cache.get(&"a"), None);
    assert!(cache.is_table_empty());
}

#[test]
fn entering_and_completing_initializes_once() {
    let mut cache: Cache<&str, String> = Cache::new(10);
    let mut rounds = ValueInitializer::<String>::new();
    let hash = cache.hash(&"k");

    let ticket = match cache.enter_with_hash(&"k", hash, &mut rounds) {
        Entered::Turn(InitTurn::Evaluate(t)) => t,
        _ => panic!("the first caller evaluates"),
    };
    // Whoever enters before the first has finished waits for it.
    match cache.enter_with_hash(&"k", hash, &mut rounds) {
        Entered::Turn(turn) => assert_eq!(turn, InitTurn::Wait(ticket)),
        Entered::Found(_) => panic!("nothing is stored yet"),
    }
    assert!(rounds.is_pending(hash, ticket));

    let r = cache.complete_with_hash("k", hash, ticket, Ok(String::from("v")), &mut rounds);
    assert_eq!(r, Ok(String::from("v")));
    assert!(!rounds.is_pending(hash, ticket));
    assert!(rounds.leave(ticket).is_none());

    // The one that waited enters again and finds the value.
    match cache.enter_with_hash(&"k", hash, &mut rounds) {
        Entered::Found(v) => assert_eq!(v, "v"),
        Entered::Turn(_) => panic!("the value is stored"),
    }
    assert!(rounds.is_idle());
    assert_eq!(cache.get(&"k"), Some(String::from("v")));
}

#[test]
fn failed_initialization_is_shared_and_stores_nothing() {
    let mut cache: Cache<&str, String> = Cache::new(10);
    let mut rounds = ValueInitializer::<String>::new();
    let hash = cache.hash(&"k");

    let ticket = match cache.enter_with_hash(&"k", hash, &mut rounds) {
        Entered::Turn(InitTurn::Evaluate(t)) => t,
        _ => panic!("the first caller evaluates"),
    };
    for _ in 0..3 {
        match cache.enter_with_hash(&"k", hash, &mut rounds) {
            Entered::Turn(turn) => assert_eq!(turn, InitTurn::Wait(ticket)),
            Entered::Found(_) => panic!("nothing is stored yet"),
        }
    }

    let failure = cache
        .complete_with_hash("k", hash, ticket, Err(String::from("out of luck")), &mut rounds)
        .expect_err("the function failed");
    assert_eq!(*failure, "out of luck");
    assert!(!rounds.is_pending(hash, ticket));
    for _ in 0..3 {
        let told = rounds.leave(ticket).expect("the round failed");
        assert!(Arc::ptr_eq(&told, &failure));
    }
    assert!(rounds.leave(ticket).is_none());
    assert_eq!(cache.get(&"k"), None);
    assert!(cache.is_table_empty());

    // The next caller evaluates again.
    match cache.enter_with_hash(&"k", hash, &mut rounds) {
        Entered::Turn(InitTurn::Evaluate(t)) => assert!(t != ticket),
        _ => panic!("the round is over"),
    }
}

#[test]
fn clock_change_keeps_the_time() {
    let mut cache = Cache::with_everything(
        100,
        None,
        RandomState::new(),
        Some(Duration::from_secs(10)),
        None,
        false,
    );
    let (clock, mock) = Clock::mock();
    cache.set_expiration_clock(Some(clock));
    cache.insert("a", "alice");
    mock.increment(Duration::from_secs(6));
    assert_eq!(cache.get(&"a"), Some("alice"));

    // Six seconds have passed; five more on another clock make eleven.
    let (other, other_mock) = Clock::mock();
    cache.set_expiration_clock(Some(other));
    assert_eq!(cache.get(&"a"), Some("alice"));
    other_mock.increment(Duration::from_secs(3));
    assert_eq!(cache.get(&"a"), Some("alice"));
    other_mock.increment(Duration::from_secs(2));
    assert_eq!(cache.get(&"a"), None);
}
