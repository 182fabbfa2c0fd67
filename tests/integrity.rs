use peapod::integrity::{
    digests_equal, hash_chunk, verify_chunk, PeerTrustTracker, DEFAULT_MAX_INTEGRITY_FAILURES,
};
use peapod::Keypair;

#[test]
fn hash_verify_roundtrip() {
    let payload = b"hello chunk";
    let hash = hash_chunk(payload);
    assert!(verify_chunk(payload, &hash));
}

#[test]
fn verify_rejects_tampered() {
    let payload = b"hello chunk";
    let hash = hash_chunk(payload);
    assert!(!verify_chunk(b"tampered", &hash));
}

#[test]
fn valid_chunk_passes_verification() {
    let payload = b"valid data for chunk";
    let hash = hash_chunk(payload);
    assert!(verify_chunk(payload, &hash));
}

#[test]
fn tampered_chunk_fails_verification() {
    let payload = b"original data";
    let hash = hash_chunk(payload);
    assert!(!verify_chunk(b"tampered data", &hash));
}

#[test]
fn hash_chunk_is_sha256() {
    let h = hash_chunk(b"abc");
    let expected: [u8; 32] = [
        0xba, 0x78, 0x16, 0xbf, 0x8f, 0x01, 0xcf, 0xea, 0x41, 0x41, 0x40, 0xde, 0x5d, 0xae, 0x22,
        0x23, 0xb0, 0x03, 0x61, 0xa3, 0x96, 0x17, 0x7a, 0x9c, 0xb4, 0x10, 0xff, 0x61, 0xf2, 0x00,
        0x15, 0xad,
    ];
    assert_eq!(h, expected);
    let expected_hello: [u8; 32] = [
        241, 84, 63, 84, 235, 40, 205, 203, 40, 178, 180, 93, 78, 221, 13, 174, 198, 119, 104, 71,
        97, 175, 51, 164, 184, 137, 159, 52, 106, 225, 70, 168,
    ];
    assert!(verify_chunk(b"hello chunk", &expected_hello));
}

#[test]
fn digests_equal_compares_every_byte() {
    let a = [7u8; 32];
    let mut b = a;
    assert!(digests_equal(&a, &b));
    b[31] ^= 1;
    assert!(!digests_equal(&a, &b));
    b = a;
    b[0] = 0;
    assert!(!digests_equal(&a, &b));
}

#[test]
fn peer_not_isolated_before_threshold() {
    let mut tracker = PeerTrustTracker::new();
    let peer = Keypair::generate().device_id();
    assert!(!tracker.is_isolated(&peer, DEFAULT_MAX_INTEGRITY_FAILURES));
    tracker.record_failure(peer);
    tracker.record_failure(peer);
    assert_eq!(tracker.failure_count(&peer), 2);
    assert!(!tracker.is_isolated(&peer, DEFAULT_MAX_INTEGRITY_FAILURES));
}

#[test]
fn peer_isolated_after_threshold() {
    let mut tracker = PeerTrustTracker::new();
    let peer = Keypair::generate().device_id();
    for _ in 0..DEFAULT_MAX_INTEGRITY_FAILURES {
        tracker.record_failure(peer);
    }
    assert_eq!(tracker.failure_count(&peer), DEFAULT_MAX_INTEGRITY_FAILURES);
    assert!(tracker.is_isolated(&peer, DEFAULT_MAX_INTEGRITY_FAILURES));
}

#[test]
fn peer_isolated_custom_threshold() {
    let mut tracker = PeerTrustTracker::new();
    let peer = Keypair::generate().device_id();
    tracker.record_failure(peer);
    assert!(tracker.is_isolated(&peer, 1));
    assert!(!tracker.is_isolated(&peer, 2));
}

#[test]
fn failures_are_counted_per_peer() {
    let mut tracker = PeerTrustTracker::new();
    let a = Keypair::generate().device_id();
    let b = Keypair::generate().device_id();
    tracker.record_failure(a);
    tracker.record_failure(b);
    tracker.record_failure(a);
    assert_eq!(tracker.failure_count(&a), 2);
    assert_eq!(tracker.failure_count(&b), 1);
}
