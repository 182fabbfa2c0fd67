use peapod::scheduler::{
    assign_chunks_to_peers, assign_chunks_weighted, assign_chunks_with_metrics, assignment_map,
    reassign_after_peer_left, PeerMetrics, DEFAULT_MAX_FAILURES,
};
use peapod::{ChunkId, DeviceId, Keypair};

fn chunk(start: u64, end: u64) -> ChunkId {
    ChunkId { transfer_id: [0; 16], start, end }
}

fn chunks(n: u64) -> Vec<ChunkId> {
    (0..n).map(|i| chunk(i * 100, (i + 1) * 100)).collect()
}

#[test]
fn assign_to_single_peer() {
    let kp = Keypair::generate();
    let chunks = vec![chunk(0, 100), chunk(100, 200)];
    let peers = vec![kp.device_id()];
    let out = assign_chunks_to_peers(&chunks, &peers);
    assert_eq!(out.len(), 2);
    assert_eq!(out[0].1, kp.device_id());
}

#[test]
fn assign_round_robin() {
    let a = Keypair::generate();
    let b = Keypair::generate();
    let chunks = vec![chunk(0, 100), chunk(100, 200), chunk(200, 300)];
    let peers = vec![a.device_id(), b.device_id()];
    let out = assign_chunks_to_peers(&chunks, &peers);
    assert_eq!(out[0].1, a.device_id());
    assert_eq!(out[1].1, b.device_id());
    assert_eq!(out[2].1, a.device_id());
}

#[test]
fn assign_no_peers_returns_empty() {
    let chunks = vec![chunk(0, 100)];
    let out = assign_chunks_to_peers(&chunks, &[]);
    assert!(out.is_empty());
}

#[test]
fn reassign_after_leave() {
    let a = Keypair::generate();
    let b = Keypair::generate();
    let chunks = vec![chunk(0, 100), chunk(100, 200)];
    let peers = vec![a.device_id(), b.device_id()];
    let assignment = assign_chunks_to_peers(&chunks, &peers);
    let remaining = vec![b.device_id()];
    let new_assignments = reassign_after_peer_left(&assignment, a.device_id(), &remaining);
    assert_eq!(new_assignments.len(), 1);
    assert_eq!(new_assignments[0].1, b.device_id());
}

#[test]
fn reassign_without_remaining_keeps_departed_peer() {
    let a = DeviceId::from_bytes([1; 16]);
    let b = DeviceId::from_bytes([2; 16]);
    let assignment = vec![(chunk(0, 100), a), (chunk(100, 200), b), (chunk(200, 300), a)];
    let out = reassign_after_peer_left(&assignment, a, &[]);
    assert_eq!(out, vec![(chunk(0, 100), a), (chunk(200, 300), a)]);
}

#[test]
fn assign_with_metrics_excludes_failing_peer() {
    let a = Keypair::generate();
    let b = Keypair::generate();
    let chunks = vec![chunk(0, 100), chunk(100, 200), chunk(200, 300)];
    let peers = vec![a.device_id(), b.device_id()];
    let mut bad_metrics = PeerMetrics::default();
    for _ in 0..DEFAULT_MAX_FAILURES {
        bad_metrics.record_failure();
    }
    let metrics = vec![(a.device_id(), bad_metrics)];
    let out = assign_chunks_with_metrics(&chunks, &peers, &metrics, DEFAULT_MAX_FAILURES);
    for (_chunk, peer) in &out {
        assert_eq!(*peer, b.device_id());
    }
}

#[test]
fn assign_with_metrics_fallback_all_excluded() {
    let a = Keypair::generate();
    let chunks = vec![chunk(0, 100)];
    let peers = vec![a.device_id()];
    let mut bad_metrics = PeerMetrics::default();
    for _ in 0..DEFAULT_MAX_FAILURES {
        bad_metrics.record_failure();
    }
    let metrics = vec![(a.device_id(), bad_metrics)];
    let out = assign_chunks_with_metrics(&chunks, &peers, &metrics, DEFAULT_MAX_FAILURES);
    assert_eq!(out.len(), 1);
    assert_eq!(out[0].1, a.device_id());
}

#[test]
fn peer_metrics_counters_saturate() {
    let mut m = PeerMetrics { successes: u64::MAX - 1, failures: u64::MAX };
    m.record_success();
    m.record_success();
    m.record_failure();
    assert_eq!(m.successes, u64::MAX);
    assert_eq!(m.failures, u64::MAX);
    let mut fresh = PeerMetrics::new();
    fresh.record_success();
    fresh.record_failure();
    fresh.record_failure();
    assert_eq!((fresh.successes, fresh.failures), (1, 2));
}

#[test]
fn weighted_shares_follow_weights() {
    let w: Vec<DeviceId> = (1..=3).map(|i| DeviceId::from_bytes([i; 16])).collect();
    let cs = chunks(10);
    let out = assign_chunks_weighted(&cs, &w, &[1, 2, 3]);
    assert_eq!(out.len(), 10);
    // ⌊10/6⌋ = 1, ⌊20/6⌋ = 3, ⌊30/6⌋ = 5; the one left over goes to the first worker.
    let owners: Vec<DeviceId> = out.iter().map(|e| e.1).collect();
    let expected: Vec<DeviceId> = [0, 0, 1, 1, 1, 2, 2, 2, 2, 2].iter().map(|&i| w[i]).collect();
    assert_eq!(owners, expected);
    let order: Vec<ChunkId> = out.iter().map(|e| e.0).collect();
    assert_eq!(order, cs);
}

#[test]
fn weighted_shares_stay_within_one_of_proportion() {
    let w: Vec<DeviceId> = (1..=4).map(|i| DeviceId::from_bytes([i; 16])).collect();
    let weights = [5u64, 0, 7, 1];
    let cs = chunks(23);
    let out = assign_chunks_weighted(&cs, &w, &weights);
    assert_eq!(out.len(), cs.len());
    let total: u64 = weights.iter().sum();
    for (p, id) in w.iter().enumerate() {
        let got = out.iter().filter(|e| e.1 == *id).count() as u64;
        let base = weights[p] * 23 / total;
        assert!(base <= got && got <= base + 1, "worker {} got {}", p, got);
    }
}

#[test]
fn weighted_falls_back_to_round_robin() {
    let w: Vec<DeviceId> = (1..=2).map(|i| DeviceId::from_bytes([i; 16])).collect();
    let cs = chunks(3);
    let zero = assign_chunks_weighted(&cs, &w, &[0, 0]);
    assert_eq!(zero, assign_chunks_to_peers(&cs, &w));
    let mismatched = assign_chunks_weighted(&cs, &w, &[1]);
    assert_eq!(mismatched, assign_chunks_to_peers(&cs, &w));
    assert!(assign_chunks_weighted(&cs, &[], &[]).is_empty());
}

#[test]
fn assignment_map_last_entry_wins() {
    let a = DeviceId::from_bytes([1; 16]);
    let b = DeviceId::from_bytes([2; 16]);
    let map = assignment_map(&[(chunk(0, 100), a), (chunk(100, 200), a), (chunk(0, 100), b)]);
    assert_eq!(map.get(&chunk(0, 100)), Some(b));
    assert_eq!(map.get(&chunk(100, 200)), Some(a));
    assert_eq!(map.get(&chunk(200, 300)), None);
}
