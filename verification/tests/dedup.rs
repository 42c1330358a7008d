use pathweave::dedup::DeduplicationCache;
use pathweave::NodeIdentity;
use std::time::{Duration, Instant};

/// Ten milliseconds, in nanoseconds.
const SHORT: u128 = 10_000_000;

fn wait(d: Duration) {
    let start = Instant::now();
    while start.elapsed() < d {}
}

#[test]
fn dedup_cache_first_insert_not_duplicate() {
    let mut cache = DeduplicationCache::new();
    let peer = *NodeIdentity::generate().peer_id();
    assert!(!cache.check_and_insert(&peer, 42));
}

#[test]
fn dedup_cache_second_insert_same_key_is_duplicate() {
    let mut cache = DeduplicationCache::new();
    let peer = *NodeIdentity::generate().peer_id();
    cache.check_and_insert(&peer, 42);
    assert!(cache.check_and_insert(&peer, 42));
}

#[test]
fn dedup_cache_different_message_id_not_duplicate() {
    let mut cache = DeduplicationCache::new();
    let peer = *NodeIdentity::generate().peer_id();
    cache.check_and_insert(&peer, 1);
    assert!(!cache.check_and_insert(&peer, 2));
}

#[test]
fn dedup_cache_different_peer_same_id_not_duplicate() {
    let mut cache = DeduplicationCache::new();
    let peer_a = *NodeIdentity::generate().peer_id();
    let peer_b = *NodeIdentity::generate().peer_id();
    cache.check_and_insert(&peer_a, 42);
    assert!(!cache.check_and_insert(&peer_b, 42));
}

#[test]
fn dedup_cache_entry_redeliverable_after_ttl_expires() {
    let mut cache = DeduplicationCache::with_ttl(SHORT);
    let peer = *NodeIdentity::generate().peer_id();
    cache.check_and_insert(&peer, 99);
    wait(Duration::from_millis(20));
    assert!(!cache.check_and_insert(&peer, 99));
}

#[test]
fn routed_dedup_first_insert_not_duplicate() {
    let mut cache = DeduplicationCache::new();
    assert!(!cache.check_and_insert_routed(0xABCD));
}

#[test]
fn routed_dedup_second_insert_same_id_is_duplicate() {
    let mut cache = DeduplicationCache::new();
    cache.check_and_insert_routed(0xABCD);
    assert!(cache.check_and_insert_routed(0xABCD));
}

#[test]
fn routed_dedup_different_id_not_duplicate() {
    let mut cache = DeduplicationCache::new();
    cache.check_and_insert_routed(1);
    assert!(!cache.check_and_insert_routed(2));
}

#[test]
fn routed_dedup_redeliverable_after_ttl_expires() {
    let mut cache = DeduplicationCache::with_ttl(SHORT);
    cache.check_and_insert_routed(0xABCD);
    wait(Duration::from_millis(20));
    assert!(!cache.check_and_insert_routed(0xABCD));
}

#[test]
fn routed_dedup_independent_of_direct_dedup() {
    let mut cache = DeduplicationCache::new();
    let peer = *NodeIdentity::generate().peer_id();
    // Direct dedup on (peer, id) must not affect routed dedup on id alone.
    cache.check_and_insert(&peer, 42);
    assert!(!cache.check_and_insert_routed(42));
}

#[test]
fn window_is_half_open() {
    let mut cache = DeduplicationCache::with_ttl(100);
    let peer = *NodeIdentity::generate().peer_id();
    assert!(!cache.check_and_insert_at(&peer, 7, 1000));
    assert!(cache.check_and_insert_at(&peer, 7, 1099));
    assert!(!cache.check_and_insert_at(&peer, 7, 1100));
}

#[test]
fn duplicate_does_not_prolong_the_window() {
    let mut cache = DeduplicationCache::with_ttl(100);
    assert!(!cache.check_and_insert_routed_at(7, 0));
    assert!(cache.check_and_insert_routed_at(7, 99));
    assert!(!cache.check_and_insert_routed_at(7, 100));
}

#[test]
fn clock_going_back_keeps_entries() {
    let mut cache = DeduplicationCache::with_ttl(100);
    assert!(!cache.check_and_insert_routed_at(7, 500));
    assert!(cache.check_and_insert_routed_at(7, 10));
}

#[test]
fn clock_advances() {
    let cache = DeduplicationCache::new();
    let before = cache.now();
    wait(Duration::from_millis(2));
    assert!(cache.now() >= before + 1_000_000);
}

#[test]
fn history_of_look_ups() {
    let mut cache = DeduplicationCache::with_ttl(100);
    let peer = *NodeIdentity::generate().peer_id();
    let other = *NodeIdentity::generate().peer_id();
    assert!(!cache.check_and_insert_at(&peer, 7, 0));
    assert!(!cache.check_and_insert_at(&other, 7, 10));
    assert!(!cache.check_and_insert_routed_at(7, 20));
    assert!(cache.check_and_insert_at(&peer, 7, 90));
    assert!(!cache.check_and_insert_at(&peer, 7, 100), "90 found it");
    assert!(cache.check_and_insert_at(&other, 7, 109));
    assert!(cache.check_and_insert_routed_at(7, 119));
    assert!(cache.check_and_insert_at(&peer, 7, 199));
    assert!(!cache.check_and_insert_at(&peer, 7, 200));
}
