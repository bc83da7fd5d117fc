use tinyufo::tinyufo::TinyUFO;

#[test]
fn tinyufo_test_sanity() {
    let mut cache = TinyUFO::new(100, 10);
    cache.put(1, 1, 1);
    cache.put(2, 2, 1);
}

#[test]
fn put_then_get_two_keys() {
    let mut cache = TinyUFO::new(100, 10);
    cache.put(1, 1, "a");
    cache.put(2, 1, "b");
    assert_eq!(cache.get(&1), Some(&"a"));
    assert_eq!(cache.get(&2), Some(&"b"));
    assert_eq!(cache.len(), 2);
    assert_eq!(cache.ledger(), (2, 0));
}

#[test]
fn get_of_missing_key() {
    let mut cache: TinyUFO<u64, &str> = TinyUFO::new(100, 10);
    assert_eq!(cache.get(&5), None);
    cache.put(4, 1, "x");
    assert_eq!(cache.get(&5), None);
}

#[test]
fn small_queue_head_is_evicted() {
    let mut cache = TinyUFO::new(2, 4);
    cache.put(1, 1, "a");
    cache.put(2, 1, "b");
    // the ledger reaches the limit but does not exceed it: nothing goes yet
    cache.put(3, 1, "c");
    assert_eq!(cache.ledger(), (3, 0));
    assert_eq!(cache.len(), 3);
    // now the budget is exceeded: the head of the small queue, used once, goes
    cache.put(4, 1, "d");
    assert_eq!(cache.get(&1), None);
    assert_eq!(cache.get(&3), Some(&"c"));
    assert_eq!(cache.get(&4), Some(&"d"));
    assert_eq!(cache.len(), 3);
    assert_eq!(cache.ledger(), (3, 0));
}

#[test]
fn used_entry_is_promoted() {
    let mut cache = TinyUFO::new(2, 4);
    cache.put(1, 1, "a");
    cache.get(&1);
    cache.get(&1);
    cache.put(2, 1, "b");
    cache.put(3, 1, "c");
    cache.put(4, 1, "d");
    // key 1 had uses 3: promoted to main, key 2 evicted in its place
    assert_eq!(cache.get(&2), None);
    assert_eq!(cache.get(&1), Some(&"a"));
    assert_eq!(cache.ledger(), (2, 1));
}

#[test]
fn put_of_present_key_keeps_value() {
    let mut cache: TinyUFO<u64, _> = TinyUFO::new(100, 10);
    cache.put_hashed(7, 3, "first");
    cache.put_hashed(7, 5, "second");
    assert_eq!(cache.len(), 1);
    assert_eq!(cache.ledger(), (3, 0));
    assert_eq!(cache.get_hashed(7), Some(&"first"));
}

#[test]
fn round_trip_within_budget() {
    let mut cache: TinyUFO<u64, _> = TinyUFO::new(1000, 100);
    for k in 0..50u64 {
        cache.put_hashed(k, 10, k * 2);
    }
    for k in 0..50u64 {
        assert_eq!(cache.get_hashed(k), Some(&(k * 2)));
    }
    assert_eq!(cache.ledger(), (500, 0));
}

#[test]
fn frequency_gates_weight() {
    let mut cache: TinyUFO<u64, _> = TinyUFO::new(2, 1000);
    cache.put_hashed(1, 1, ());
    cache.put_hashed(2, 1, ());
    cache.put_hashed(3, 1, ());
    assert_eq!(cache.ledger(), (3, 0));
    cache.put_hashed(4, 1, ());
    cache.put_hashed(5, 1, ());
    cache.put_hashed(6, 1, ());
    assert_eq!(cache.ledger(), (3, 0));
    // the hot key is seen no more often than its victim: it inherits weight 1
    cache.put_hashed(100, 3, ());
    assert_eq!(cache.ledger(), (3, 0));
    assert_eq!(cache.len(), 3);
    cache.put_hashed(7, 1, ());
    cache.put_hashed(8, 1, ());
    cache.put_hashed(9, 1, ());
    assert_eq!(cache.get_hashed(100), None);
    // seen twice now, more than its victim: it gets its requested weight
    cache.put_hashed(100, 3, ());
    assert_eq!(cache.ledger(), (5, 0));
    assert_eq!(cache.get_hashed(100), Some(&()));
}

#[test]
fn zero_weight_entries_cost_nothing() {
    let mut cache: TinyUFO<u64, _> = TinyUFO::new(1, 10);
    for k in 0..5u64 {
        cache.put_hashed(k, 0, k);
    }
    assert_eq!(cache.len(), 5);
    assert_eq!(cache.ledger(), (0, 0));
}

#[test]
fn table_size_tracks_admissions() {
    let mut cache: TinyUFO<u64, _> = TinyUFO::new(5, 16);
    for k in 0..40u64 {
        cache.put_hashed(k % 13, 1, k);
        let (s, m) = cache.ledger();
        assert!(s + m <= 5 + 1);
    }
    assert!(cache.len() <= 6);
}

#[test]
fn zero_limit_can_exceed_by_more_than_one_weight() {
    // with a zero limit the small queue's own limit is 1, so the second
    // entry is not evicted and the ledger reaches 2
    let mut cache: TinyUFO<u64, u8> = TinyUFO::new(0, 4);
    cache.put_hashed(1, 1, 1);
    cache.put_hashed(2, 1, 2);
    assert_eq!(cache.ledger(), (2, 0));
    // the next put finds the small queue over its limit and evicts its head
    cache.put_hashed(3, 1, 3);
    assert_eq!(cache.get_hashed(1), None);
    assert_eq!(cache.len(), 2);
}

#[test]
fn fingerprints_of_user_keys_are_stable() {
    let mut cache = TinyUFO::new(100, 10);
    cache.put("alpha".to_string(), 1, 10);
    cache.put("beta".to_string(), 1, 20);
    assert_eq!(cache.get(&"alpha".to_string()), Some(&10));
    assert_eq!(cache.get(&"beta".to_string()), Some(&20));
    assert_eq!(cache.get(&"gamma".to_string()), None);
}

#[test]
fn main_scan_evicts_first_least_used() {
    let mut cache: TinyUFO<u64, u64> = TinyUFO::new(3, 1000);
    cache.put_hashed(1, 1, 10);
    cache.get_hashed(1);
    cache.get_hashed(1);
    cache.put_hashed(2, 1, 20);
    cache.get_hashed(2);
    cache.put_hashed(3, 1, 30);
    cache.put_hashed(4, 1, 40);
    assert_eq!(cache.ledger(), (4, 0));
    // 1 and 2 are promoted, 3 is evicted
    cache.put_hashed(5, 1, 50);
    assert_eq!(cache.ledger(), (2, 2));
    assert_eq!(cache.get_hashed(3), None);
    // 4 is evicted from the small queue
    cache.put_hashed(6, 1, 60);
    assert_eq!(cache.get_hashed(4), None);
    cache.get_hashed(5);
    cache.get_hashed(6);
    // 5 and 6 are promoted; the main queue holds uses 3, 2, 2, 2 and its
    // scan evicts 2, the first entry with the fewest uses
    cache.put_hashed(7, 1, 70);
    assert_eq!(cache.ledger(), (1, 3));
    assert_eq!(cache.get_hashed(2), None);
    assert_eq!(cache.get_hashed(1), Some(&10));
    assert_eq!(cache.get_hashed(5), Some(&50));
    assert_eq!(cache.get_hashed(6), Some(&60));
    assert_eq!(cache.get_hashed(7), Some(&70));
}
