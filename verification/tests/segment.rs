use cachekit::initializer::Entered;
use cachekit::initializer::InitTurn;
use cachekit::initializer::ValueInitializer;
use cachekit::Cache;
use cachekit::PredicateError;
use cachekit::SegmentedCache;
use quanta::Clock;
use std::collections::hash_map::RandomState;
use std::collections::HashSet;
use std::sync::Arc;
use std::time::Duration;

#[test]
fn segment_basic_single_thread() {
    let mut cache = SegmentedCache::new(3, 1);
    cache.reconfigure_for_testing();

    cache.insert("a", "alice");
    cache.insert("b", "bob");
    assert_eq!(cache.get(&"a"), Some("alice"));
    assert_eq!(cache.get(&"b"), Some("bob"));
    cache.sync();

    cache.insert("c", "cindy");
    assert_eq!(cache.get(&"c"), Some("cindy"));
    cache.sync();

    assert_eq!(cache.get(&"a"), Some("alice"));
    assert_eq!(cache.get(&"b"), Some("bob"));
    cache.sync();

    // "d" should not be admitted because its frequency is too low.
    cache.insert("d", "david");
    cache.sync();
    assert_eq!(cache.get(&"d"), None);

    cache.insert("d", "david");
    cache.sync();
    assert_eq!(cache.get(&"d"), None);

    // "d" should be admitted and "c" should be evicted
    // because d's frequency is higher than c's.
    cache.insert("d", "dennis");
    cache.sync();
    assert_eq!(cache.get(&"a"), Some("alice"));
    assert_eq!(cache.get(&"b"), Some("bob"));
    assert_eq!(cache.get(&"c"), None);
    assert_eq!(cache.get(&"d"), Some("dennis"));

    cache.invalidate(&"b");
}

#[test]
fn segment_invalidate_all() {
    let mut cache = SegmentedCache::new(100, 4);
    cache.reconfigure_for_testing();

    cache.insert("a", "alice");
    cache.insert("b", "bob");
    cache.insert("c", "cindy");
    assert_eq!(cache.get(&"a"), Some("alice"));
    assert_eq!(cache.get(&"b"), Some("bob"));
    assert_eq!(cache.get(&"c"), Some("cindy"));
    cache.sync();

    cache.invalidate_all();
    cache.sync();

    cache.insert("d", "david");
    cache.sync();

    assert!(cache.get(&"a").is_none());
    assert!(cache.get(&"b").is_none());
    assert!(cache.get(&"c").is_none());
    assert_eq!(cache.get(&"d"), Some("david"));
}

#[test]
fn segment_invalidate_entries_if() {
    const SEGMENTS: usize = 4;

    let mut cache =
        SegmentedCache::with_everything(100, None, SEGMENTS, RandomState::new(), None, None, true);
    cache.reconfigure_for_testing();

    let (clock, mock) = Clock::mock();
    cache.set_expiration_clock(Some(clock));

    cache.insert(0, "alice");
    cache.insert(1, "bob");
    cache.insert(2, "alex");
    cache.sync();
    mock.increment(Duration::from_secs(5)); // 5 secs from the start.
    cache.sync();

    assert_eq!(cache.get(&0), Some("alice"));
    assert_eq!(cache.get(&1), Some("bob"));
    assert_eq!(cache.get(&2), Some("alex"));

    let names = ["alice", "alex"].iter().cloned().collect::<HashSet<_>>();
    cache
        .invalidate_entries_if(move |_k, &v| names.contains(v))
        .unwrap();
    assert_eq!(cache.invalidation_predicate_count(), SEGMENTS * 1);

    mock.increment(Duration::from_secs(5)); // 10 secs from the start.

    cache.insert(3, "alice");

    cache.sync();
    cache.sync();

    assert!(cache.get(&0).is_none());
    assert!(cache.get(&2).is_none());
    assert_eq!(cache.get(&1), Some("bob"));
    // This should survive as it was inserted after calling invalidate_entries_if.
    assert_eq!(cache.get(&3), Some("alice"));
    assert_eq!(cache.table_size(), 2);
    assert_eq!(cache.invalidation_predicate_count(), SEGMENTS * 0);

    mock.increment(Duration::from_secs(5)); // 15 secs from the start.

    cache.invalidate_entries_if(|_k, &v| v == "alice").unwrap();
    cache.invalidate_entries_if(|_k, &v| v == "bob").unwrap();
    assert_eq!(cache.invalidation_predicate_count(), SEGMENTS * 2);

    cache.sync();
    cache.sync();

    assert!(cache.get(&1).is_none());
    assert!(cache.get(&3).is_none());
    assert_eq!(cache.table_size(), 0);
    assert_eq!(cache.invalidation_predicate_count(), SEGMENTS * 0);
}

#[test]
fn segments_are_rounded_up_to_a_power_of_two() {
    let cache: SegmentedCache<u32, u32> = SegmentedCache::new(100, 1);
    assert_eq!(cache.num_segments(), 1);
    let cache: SegmentedCache<u32, u32> = SegmentedCache::new(100, 2);
    assert_eq!(cache.num_segments(), 2);
    let cache: SegmentedCache<u32, u32> = SegmentedCache::new(100, 3);
    assert_eq!(cache.num_segments(), 4);
    let cache: SegmentedCache<u32, u32> = SegmentedCache::new(100, 5);
    assert_eq!(cache.num_segments(), 8);
    assert_eq!(cache.max_capacity(), 100);
    assert_eq!(cache.time_to_live(), None);
    assert_eq!(cache.time_to_idle(), None);
}

#[test]
fn segment_is_picked_by_the_leading_hash_bits() {
    let one: SegmentedCache<u32, u32> = SegmentedCache::new(100, 1);
    assert_eq!(one.segment_index_from_hash(0), 0);
    assert_eq!(one.segment_index_from_hash(u64::MAX), 0);

    let four: SegmentedCache<u32, u32> = SegmentedCache::new(100, 4);
    assert_eq!(four.segment_index_from_hash(0), 0);
    assert_eq!(four.segment_index_from_hash(0x3fff_ffff_ffff_ffff), 0);
    assert_eq!(four.segment_index_from_hash(0x4000_0000_0000_0000), 1);
    assert_eq!(four.segment_index_from_hash(0x8000_0000_0000_0000), 2);
    assert_eq!(four.segment_index_from_hash(0xc000_0000_0000_0000), 3);
    assert_eq!(four.segment_index_from_hash(u64::MAX), 3);
}

#[test]
fn segmented_cache_behaves_like_a_cache() {
    let mut plain: Cache<u32, u32> = Cache::new(1000);
    let mut split: SegmentedCache<u32, u32> = SegmentedCache::new(8000, 8);
    for k in 0..200u32 {
        plain.insert(k, k + 1);
        split.insert(k, k + 1);
    }
    for k in (0..200u32).step_by(3) {
        plain.invalidate(&k);
        split.invalidate(&k);
    }
    plain.sync();
    split.sync();
    for k in 0..200u32 {
        assert_eq!(plain.get(&k), split.get(&k));
    }
    assert_eq!(plain.table_size(), split.table_size());
    plain.invalidate_all();
    split.invalidate_all();
    for k in 0..200u32 {
        assert_eq!(split.get(&k), None);
        assert_eq!(plain.get(&k), None);
    }
}

#[test]
fn segmented_get_or_insert_with() {
    let mut cache: SegmentedCache<u32, &str> = SegmentedCache::new(100, 4);
    assert_eq!(cache.get(&0), None);
    let v = cache.get_or_insert_with(0, || "thread1");
    assert_eq!(v, "thread1");
    let v = cache.get_or_insert_with(0, || unreachable!());
    assert_eq!(v, "thread1");
    assert_eq!(cache.get(&0), Some("thread1"));

    let r = cache.get_or_try_insert_with(1, || Err::<&str, &str>("thread1 error"));
    assert!(r.is_err());
    assert_eq!(cache.get(&1), None);
    let r = cache.get_or_try_insert_with(1, || Ok::<&str, &str>("thread3"));
    assert_eq!(r.unwrap(), "thread3");
    let r = cache.get_or_try_insert_with(1, || -> Result<&str, &str> { unreachable!() });
    assert_eq!(r.unwrap(), "thread3");
    assert_eq!(cache.get(&1), Some("thread3"));
}

#[test]
fn segmented_predicates_need_support() {
    let mut cache: SegmentedCache<u32, u32> = SegmentedCache::new(100, 4);
    cache.insert(1, 1);
    assert_eq!(
        cache.invalidate_entries_if(|_k, _v| true),
        Err(PredicateError::PredicatesDisabled)
    );
    assert_eq!(cache.invalidation_predicate_count(), 0);
    assert_eq!(cache.get(&1), Some(1));
}

#[test]
fn segmented_capacity_holds_after_sync() {
    let mut cache: SegmentedCache<u32, u32> = SegmentedCache::new(40, 4);
    for k in 0..2000 {
        cache.insert(k, k);
    }
    cache.sync();
    assert!(cache.table_size() <= 40);
}

#[test]
fn segments_take_the_steps_of_an_initialization() {
    let mut cache: SegmentedCache<u32, String> = SegmentedCache::new(64, 4);
    let mut rounds = ValueInitializer::<String>::new();

    for key in 0..16u32 {
        let hash = cache.hash(&key);
        let ticket = match cache.enter_with_hash(&key, hash, &mut rounds) {
            Entered::Turn(InitTurn::Evaluate(t)) => t,
            _ => panic!("the first caller evaluates"),
        };
        match cache.enter_with_hash(&key, hash, &mut rounds) {
            Entered::Turn(turn) => assert_eq!(turn, InitTurn::Wait(ticket)),
            Entered::Found(_) => panic!("nothing is stored yet"),
        }
        if key % 2 == 0 {
            let r = cache.complete_with_hash(key, hash, ticket, Ok(key.to_string()), &mut rounds);
            assert_eq!(r, Ok(key.to_string()));
            assert!(rounds.leave(ticket).is_none());
            match cache.enter_with_hash(&key, hash, &mut rounds) {
                Entered::Found(v) => assert_eq!(v, key.to_string()),
                Entered::Turn(_) => panic!("the value is stored"),
            }
        } else {
            let failure = cache
                .complete_with_hash(key, hash, ticket, Err(String::from("odd")), &mut rounds)
                .expect_err("the function failed");
            let told = rounds.leave(ticket).expect("the round failed");
            assert!(Arc::ptr_eq(&told, &failure));
            assert_eq!(cache.get(&key), None);
        }
        assert!(rounds.is_idle());
    }
    for key in 0..16u32 {
        let expected = if key % 2 == 0 { Some(key.to_string()) } else { None };
        assert_eq!(cache.get(&key), expected);
    }
    assert_eq!(cache.table_size(), 8);
}

#[test]
fn one_segment_and_many_show_the_same_entries() {
    // Within the capacity, where no entry is evicted, a key is seen in a
    // cache of one segment exactly when it is seen in one of eight.
    let mut one: SegmentedCache<u32, u32> = SegmentedCache::new(4096, 1);
    let mut many: SegmentedCache<u32, u32> = SegmentedCache::new(4096, 8);
    let mut plain: Cache<u32, u32> = Cache::new(4096);
    let mut x: u32 = 12345;
    for step in 0..2000u32 {
        x = x.wrapping_mul(1664525).wrapping_add(1013904223);
        let key = (x >> 16) % 64;
        match (x >> 8) % 4 {
            0 | 1 => {
                one.insert(key, step);
                many.insert(key, step);
                plain.insert(key, step);
            }
            2 => {
                one.invalidate(&key);
                many.invalidate(&key);
                plain.invalidate(&key);
            }
            _ => {
                let seen = plain.get(&key);
                assert_eq!(one.get(&key), seen);
                assert_eq!(many.get(&key), seen);
            }
        }
        if step % 97 == 0 {
            one.sync();
            many.sync();
            plain.sync();
        }
    }
    for key in 0..64u32 {
        let seen = plain.get(&key);
        assert_eq!(one.get(&key), seen);
        assert_eq!(many.get(&key), seen);
    }
}
