use mles_relay::dupdet::MAX_SEEN_MESSAGES;
use mles_relay::dupdet::MessageTracker;
use mles_relay::dupdet::hash_binary_message;

#[test]
fn test_duplicate_detection() {
    let mut tracker = MessageTracker::new();
    let msg1 = hash_binary_message(b"test1");
    let msg2 = hash_binary_message(b"test2");

    // First occurrence is not a duplicate
    assert!(!tracker.is_duplicate(msg1));
    // Second occurrence is a duplicate
    assert!(tracker.is_duplicate(msg1));
    // Different message is not a duplicate
    assert!(!tracker.is_duplicate(msg2));
    // Second message becomes duplicate
    assert!(tracker.is_duplicate(msg2));
}

#[test]
fn test_capacity_limit() {
    let mut tracker = MessageTracker::new();

    // Fill beyond capacity
    for i in 0..MAX_SEEN_MESSAGES + 10 {
        tracker.is_duplicate(i as u64);
    }

    // Verify size is maintained
    assert_eq!(tracker.tracked_count(), MAX_SEEN_MESSAGES);

    // Verify oldest messages were removed (FIFO)
    assert!(!tracker.is_duplicate((MAX_SEEN_MESSAGES + 10) as u64));
    assert!(!tracker.contains(0));
    assert!(!tracker.contains(1));
}

#[test]
fn test_hash_consistency() {
    let data = b"test message";
    let hash1 = hash_binary_message(data);
    let hash2 = hash_binary_message(data);

    // Same input should produce same hash
    assert_eq!(hash1, hash2);

    // Different input should produce different hash
    let hash3 = hash_binary_message(b"different message");
    assert_ne!(hash1, hash3);
}

#[test]
fn test_clear() {
    let mut tracker = MessageTracker::new();
    let msg = hash_binary_message(b"test");

    assert!(!tracker.is_duplicate(msg));
    assert!(tracker.is_duplicate(msg));

    tracker.clear();
    assert_eq!(tracker.tracked_count(), 0);
    assert!(!tracker.is_duplicate(msg));
}

#[test]
fn test_small_capacity_scenario() {
    // A tracker bounded at 3: insert 1, 2, 3; repeat 1; insert 4 (evicts 1);
    // 1 is gone, 2 is still resident.
    let mut tracker = MessageTracker::with_limit(3);
    assert!(!tracker.is_duplicate(1));
    assert!(!tracker.is_duplicate(2));
    assert!(!tracker.is_duplicate(3));
    assert!(tracker.is_duplicate(1));
    assert!(!tracker.is_duplicate(4));
    assert!(!tracker.contains(1));
    assert!(tracker.contains(2));
}

#[test]
fn test_fifo_eviction_exact_window() {
    // After limit + k distinct fingerprints, exactly the k oldest are gone
    // and the limit most recent are still reported as duplicates.
    let limit: usize = 10;
    let k: usize = 4;
    let mut tracker = MessageTracker::with_limit(limit);
    for i in 0..(limit + k) as u64 {
        assert!(!tracker.is_duplicate(i));
    }
    assert_eq!(tracker.tracked_count(), limit);
    for i in 0..k as u64 {
        assert!(!tracker.contains(i));
    }
    for i in k as u64..(limit + k) as u64 {
        assert!(tracker.contains(i));
    }
}

#[test]
fn test_duplicate_does_not_refresh_position() {
    // Re-seeing a resident fingerprint must not move it to the newest slot:
    // it must still be the first one evicted.
    let mut tracker = MessageTracker::with_limit(3);
    assert!(!tracker.is_duplicate(1));
    assert!(!tracker.is_duplicate(2));
    assert!(!tracker.is_duplicate(3));
    // A repeat of 1 short-circuits and keeps 1 in the oldest position.
    assert!(tracker.is_duplicate(1));
    assert!(!tracker.is_duplicate(4));
    // 1 was evicted even though it was the most recently seen.
    assert!(!tracker.contains(1));
    assert!(tracker.contains(2));
    assert!(tracker.contains(3));
    assert!(tracker.contains(4));
}

#[test]
fn test_hash_not_trivial() {
    // The fingerprint is a keyed digest, not a copy of the input bytes.
    assert_ne!(hash_binary_message(&[0u8; 8]), 0);
    assert_ne!(hash_binary_message(&[1, 0, 0, 0, 0, 0, 0, 0]), 1);
}
