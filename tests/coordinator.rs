use peapod::chunk::{split_into_chunks, DEFAULT_CHUNK_SIZE};
use peapod::coordinator::{is_eligible, RequestMetadata, UploadAction, HEARTBEAT_TIMEOUT_TICKS, DEFAULT_CHUNK_TIMEOUT_TICKS};
use peapod::integrity::hash_chunk;
use peapod::{Action, ChunkError, ChunkId, DeviceId, Keypair, Message, OutboundAction, PeaPodCore, Thresholds, PROTOCOL_VERSION};

fn join(core: &mut PeaPodCore) -> DeviceId {
    let peer = Keypair::generate().device_id();
    core.on_peer_joined(peer, &Keypair::generate().public_key().clone());
    peer
}

fn meta(content_length: Option<u64>, supports_range: bool, is_encrypted_stream: bool) -> RequestMetadata {
    RequestMetadata {
        url: "http://example.com/file".to_string(),
        method: "GET".to_string(),
        content_length,
        supports_range,
        is_encrypted_stream,
    }
}

#[test]
fn integration_request_then_receive_chunks() {
    let kp = Keypair::generate();
    let mut core = PeaPodCore::with_keypair(kp);
    join(&mut core);
    let action = core.on_incoming_request("http://example.com/file", Some((0, 99)));
    let transfer_id = match &action {
        Action::Accelerate { transfer_id, total_length, assignment: _ } => {
            assert_eq!(*total_length, 100);
            *transfer_id
        }
        Action::Fallback => panic!("expected Accelerate"),
    };
    let chunk_ids = split_into_chunks(transfer_id, 100, DEFAULT_CHUNK_SIZE);
    for &chunk_id in &chunk_ids {
        let payload: Vec<u8> = (chunk_id.start..chunk_id.end).map(|j| j as u8).collect();
        let hash = hash_chunk(&payload);
        let r = core.on_chunk_received(transfer_id, chunk_id.start, chunk_id.end, hash, payload);
        if let Ok(Some(bytes)) = r {
            assert_eq!(bytes.len(), 100);
            for (j, &b) in bytes.iter().enumerate() {
                assert_eq!(b, j as u8);
            }
            return;
        }
    }
    panic!("transfer should complete after receiving all chunks");
}

#[test]
fn split_transfer_various_sizes() {
    let tid = [1u8; 16];
    let chunks = split_into_chunks(tid, 50, 256 * 1024);
    assert_eq!(chunks.len(), 1);
    assert_eq!(chunks[0].start, 0);
    assert_eq!(chunks[0].end, 50);
    let chunks = split_into_chunks(tid, 256 * 1024, 256 * 1024);
    assert_eq!(chunks.len(), 1);
    let chunks = split_into_chunks(tid, 256 * 1024 + 1, 256 * 1024);
    assert_eq!(chunks.len(), 2);
    assert_eq!(chunks[1].start, 256 * 1024);
    assert_eq!(chunks[1].end, 256 * 1024 + 1);
    let chunks = split_into_chunks(tid, 1_000_000, 256 * 1024);
    assert_eq!(chunks.len(), 4);
}

#[test]
fn assignment_with_varying_peers() {
    let mut core = PeaPodCore::new();
    join(&mut core);
    match core.on_incoming_request("http://example.com/f", Some((0, 499))) {
        Action::Accelerate { assignment, .. } => assert!(!assignment.is_empty()),
        Action::Fallback => panic!("expected Accelerate with 1 peer"),
    }
    let mut core2 = PeaPodCore::new();
    join(&mut core2);
    join(&mut core2);
    match core2.on_incoming_request("http://example.com/f", Some((0, 999))) {
        Action::Accelerate { assignment, .. } => assert!(!assignment.is_empty()),
        Action::Fallback => panic!("expected Accelerate with 2 peers"),
    }
}

#[test]
fn reassignment_when_peer_leaves() {
    let mut core = PeaPodCore::new();
    let first = join(&mut core);
    join(&mut core);
    let action = core.on_incoming_request("http://example.com/f", Some((0, 999)));
    assert!(matches!(action, Action::Accelerate { .. }));
    let actions = core.on_peer_left(first);
    for a in &actions {
        if let OutboundAction::SendMessage(peer, _) = a {
            assert_ne!(*peer, first, "should not assign to left peer");
        }
    }
}

#[test]
fn no_assignment_zero_peers() {
    let mut core = PeaPodCore::new();
    let action = core.on_incoming_request("http://example.com/f", Some((0, 99)));
    assert!(matches!(action, Action::Fallback));
}

#[test]
fn mock_host_no_peers_fallback() {
    let mut core = PeaPodCore::new();
    let action = core.on_incoming_request("http://example.com/file.bin", Some((0, 1023)));
    assert!(matches!(action, Action::Fallback));
}

#[test]
fn mock_host_one_peer_reassembly() {
    let mut core = PeaPodCore::new();
    join(&mut core);
    let data: Vec<u8> = (0..300u16).map(|i| (i % 256) as u8).collect();
    let transfer_id = match core.on_incoming_request("http://example.com/f", Some((0, 299))) {
        Action::Accelerate { transfer_id, total_length, .. } => {
            assert_eq!(total_length, 300);
            transfer_id
        }
        Action::Fallback => panic!("expected Accelerate"),
    };
    for cid in split_into_chunks(transfer_id, 300, DEFAULT_CHUNK_SIZE) {
        let payload = data[cid.start as usize..cid.end as usize].to_vec();
        let hash = hash_chunk(&payload);
        if let Ok(Some(reassembled)) = core.on_chunk_received(transfer_id, cid.start, cid.end, hash, payload) {
            assert_eq!(reassembled, data);
            return;
        }
    }
    panic!("should have completed");
}

#[test]
fn mock_host_peer_leaves_mid_transfer() {
    let mut core = PeaPodCore::new();
    let first = join(&mut core);
    join(&mut core);
    let action = core.on_incoming_request("http://example.com/f", Some((0, 999)));
    assert!(matches!(action, Action::Accelerate { .. }));
    let leave_actions = core.on_peer_left(first);
    let assignment = core.current_assignment().unwrap();
    for (_, assigned_peer) in &assignment {
        assert_ne!(*assigned_peer, first, "left peer should not be in assignment");
    }
    for a in &leave_actions {
        if let OutboundAction::SendMessage(peer, _) = a {
            assert_ne!(*peer, first);
        }
    }
}

#[test]
fn mock_host_heartbeat_timeout() {
    let mut core = PeaPodCore::new();
    join(&mut core);
    assert_eq!(core.peers().len(), 1);
    for _ in 0..=HEARTBEAT_TIMEOUT_TICKS + 1 {
        core.tick();
    }
    assert!(core.peers().is_empty(), "peer should be removed after heartbeat timeout");
}

#[test]
fn on_message_received_heartbeat() {
    let mut core = PeaPodCore::new();
    let peer = join(&mut core);
    let result = core.on_message_received(peer, Message::Heartbeat { device_id: peer });
    assert!(result.is_empty());
}

#[test]
fn on_message_received_join() {
    let mut core = PeaPodCore::new();
    let new_peer = Keypair::generate().device_id();
    let result = core.on_message_received(new_peer, Message::Join { device_id: new_peer });
    assert!(result.is_empty());
    assert!(core.peers().contains(&new_peer));
}

#[test]
fn on_message_received_leave() {
    let mut core = PeaPodCore::new();
    let peer = join(&mut core);
    let _ = core.on_message_received(peer, Message::Leave { device_id: peer });
    assert!(!core.peers().contains(&peer));
}

#[test]
fn on_message_received_chunk_request() {
    let mut core = PeaPodCore::new();
    let peer = Keypair::generate().device_id();
    let result = core.on_message_received(peer, Message::ChunkRequest { transfer_id: [5u8; 16], start: 0, end: 100 });
    assert_eq!(result.len(), 1);
    match &result[0] {
        OutboundAction::WanFetch { peer: p, transfer_id, start, end } => {
            assert_eq!(*p, peer);
            assert_eq!(*transfer_id, [5u8; 16]);
            assert_eq!(*start, 0);
            assert_eq!(*end, 100);
        }
        _ => panic!("expected WanFetch"),
    }
}

#[test]
fn on_message_received_chunk_data_completes() {
    let mut core = PeaPodCore::new();
    let peer = join(&mut core);
    let transfer_id = match core.on_incoming_request("http://example.com/f", Some((0, 49))) {
        Action::Accelerate { transfer_id, .. } => transfer_id,
        Action::Fallback => panic!("expected Accelerate"),
    };
    for cid in split_into_chunks(transfer_id, 50, DEFAULT_CHUNK_SIZE) {
        let payload: Vec<u8> = (cid.start..cid.end).map(|j| j as u8).collect();
        let hash = hash_chunk(&payload);
        let msg = Message::ChunkData { transfer_id, start: cid.start, end: cid.end, hash, payload };
        let result = core.on_message_received(peer, msg);
        if let Some(OutboundAction::TransferComplete(tid, data)) = result.first() {
            assert_eq!(*tid, transfer_id);
            assert_eq!(data.len(), 50);
            return;
        }
    }
    panic!("expected TransferComplete");
}

#[test]
fn eligibility_supports_range_not_encrypted() {
    assert!(is_eligible(&meta(Some(1000), true, false)));
}

#[test]
fn eligibility_no_range_support() {
    assert!(!is_eligible(&meta(Some(1000), false, false)));
}

#[test]
fn eligibility_encrypted_stream() {
    assert!(!is_eligible(&meta(Some(1000), true, true)));
}

#[test]
fn eligibility_zero_content_length() {
    assert!(!is_eligible(&meta(Some(0), true, false)));
}

#[test]
fn eligibility_no_content_length() {
    assert!(!is_eligible(&meta(None, true, false)));
}

#[test]
fn request_with_metadata_eligible() {
    let mut core = PeaPodCore::new();
    join(&mut core);
    let action = core.on_incoming_request_with_metadata(&meta(Some(500), true, false));
    assert!(matches!(action, Action::Accelerate { total_length: 500, .. }));
}

#[test]
fn request_with_metadata_not_eligible() {
    let mut core = PeaPodCore::new();
    join(&mut core);
    let action = core.on_incoming_request_with_metadata(&meta(Some(500), false, false));
    assert!(matches!(action, Action::Fallback));
}

#[test]
fn upload_no_peers_fallback() {
    let mut core = PeaPodCore::new();
    let result = core.start_upload(&[1, 2, 3, 4, 5]);
    assert!(matches!(result, UploadAction::Fallback));
}

#[test]
fn upload_with_peers_distributes() {
    let mut core = PeaPodCore::new();
    join(&mut core);
    let data = vec![0u8; 100];
    match core.start_upload(&data) {
        UploadAction::Distribute { assignment, chunk_data, .. } => {
            assert!(!assignment.is_empty());
            assert!(!chunk_data.is_empty());
            let total: usize = chunk_data.iter().map(|(_, d)| d.len()).sum();
            assert_eq!(total, 100);
        }
        UploadAction::Fallback => panic!("expected Distribute"),
    }
}

#[test]
fn upload_chunk_complete_tracking() {
    let mut core = PeaPodCore::new();
    join(&mut core);
    let data = vec![0u8; 100];
    let chunks: Vec<ChunkId> = match core.start_upload(&data) {
        UploadAction::Distribute { chunk_data, .. } => chunk_data.iter().map(|(c, _)| *c).collect(),
        UploadAction::Fallback => panic!("expected Distribute"),
    };
    for (i, &cid) in chunks.iter().enumerate() {
        let done = core.on_upload_chunk_complete(cid);
        if i < chunks.len() - 1 {
            assert!(!done);
        } else {
            assert!(done);
        }
    }
    assert!(!core.upload_in_progress());
}

#[test]
fn chunk_request_timeout_reassigns() {
    let mut core = PeaPodCore::new();
    let peer = join(&mut core);
    let transfer_id = match core.on_incoming_request("http://example.com/f", Some((0, 99))) {
        Action::Accelerate { transfer_id, .. } => transfer_id,
        Action::Fallback => panic!("expected Accelerate"),
    };
    let chunk_ids = split_into_chunks(transfer_id, 100, DEFAULT_CHUNK_SIZE);
    core.mark_chunk_requested(chunk_ids[0]);
    assert_eq!(core.request_tick_of(&chunk_ids[0]), Some(0));
    for _ in 0..=DEFAULT_CHUNK_TIMEOUT_TICKS + 1 {
        core.tick();
        core.on_heartbeat_received(peer);
    }
    assert!(core.request_tick_of(&chunk_ids[0]).is_none());
}

#[test]
fn fallback_when_no_peers() {
    let mut core = PeaPodCore::new();
    assert!(matches!(core.on_incoming_request("http://x/f", Some((0, 99))), Action::Fallback));
    assert!(!core.transfer_in_progress());
}

#[test]
fn fallback_for_unsupported_scheme() {
    let mut core = PeaPodCore::new();
    assert!(matches!(core.on_incoming_request("ftp://x/f", Some((0, 99))), Action::Fallback));
    join(&mut core);
    assert!(matches!(core.on_incoming_request("ftp://x/f", Some((0, 99))), Action::Fallback));
    assert!(matches!(core.on_incoming_request("HTTPS://x/f", Some((0, 99))), Action::Accelerate { .. }));
}

#[test]
fn fallback_for_absent_or_degenerate_range() {
    let mut core = PeaPodCore::new();
    join(&mut core);
    assert!(matches!(core.on_incoming_request("http://x/f", None), Action::Fallback));
    assert!(matches!(core.on_incoming_request("http://x/f", Some((10, 9))), Action::Fallback));
    match core.on_incoming_request("http://x/f", Some((10, 10))) {
        Action::Accelerate { total_length, .. } => assert_eq!(total_length, 1),
        Action::Fallback => panic!("a one-byte range is accelerated"),
    }
}

#[test]
fn peer_isolation_after_threshold() {
    let mut thresholds = Thresholds::new();
    thresholds.isolation_threshold = 2;
    let mut core = PeaPodCore::with_thresholds(Keypair::generate(), thresholds);
    let p = join(&mut core);
    let (tid, assignment) = match core.on_incoming_request("http://x/f", Some((0, DEFAULT_CHUNK_SIZE + 99))) {
        Action::Accelerate { transfer_id, assignment, .. } => (transfer_id, assignment),
        Action::Fallback => panic!("expected Accelerate"),
    };
    let (chunk, owner) = assignment[1];
    assert_eq!(owner, p);
    assert_eq!(chunk.end - chunk.start, 100);
    for _ in 0..2 {
        let r = core.on_chunk_received(tid, chunk.start, chunk.end, [0u8; 32], vec![0u8; 100]);
        assert_eq!(r, Err(ChunkError::IntegrityFailed));
    }
    assert!(!core.peers().contains(&p));
    assert!(core.is_isolated(&p));
    for (_, d) in core.current_assignment().unwrap() {
        assert_ne!(d, p);
    }
    core.on_peer_joined(p, &Keypair::generate().public_key().clone());
    assert!(!core.peers().contains(&p));
    assert!(matches!(core.on_incoming_request("http://x/f", Some((0, 99))), Action::Fallback));
}

#[test]
fn heartbeat_timeout_leads_to_fallback() {
    let mut core = PeaPodCore::new();
    let p = join(&mut core);
    for _ in 0..6 {
        core.tick();
    }
    assert!(!core.peers().contains(&p));
    assert!(matches!(core.on_incoming_request("http://x/f", Some((0, 99))), Action::Fallback));
}

#[test]
fn unknown_transfer_and_completed_transfer() {
    let mut core = PeaPodCore::new();
    let payload = vec![1u8; 10];
    let r = core.on_chunk_received([1; 16], 0, 10, hash_chunk(&payload), payload.clone());
    assert_eq!(r, Err(ChunkError::UnknownTransfer));
    join(&mut core);
    let tid = match core.on_incoming_request("http://x/f", Some((0, 9))) {
        Action::Accelerate { transfer_id, .. } => transfer_id,
        Action::Fallback => panic!("expected Accelerate"),
    };
    let r = core.on_chunk_received(tid, 0, 10, hash_chunk(&payload), payload.clone());
    assert_eq!(r, Ok(Some(payload.clone())));
    let again = core.on_chunk_received(tid, 0, 10, hash_chunk(&payload), payload);
    assert_eq!(again, Err(ChunkError::UnknownTransfer));
}

#[test]
fn beacon_is_answered_and_adds_peer() {
    let mut core = PeaPodCore::new();
    let kp = Keypair::generate();
    let msg = Message::Beacon {
        protocol_version: PROTOCOL_VERSION,
        device_id: kp.device_id(),
        public_key: *kp.public_key(),
        listen_port: 45679,
    };
    let out = core.on_message_received(kp.device_id(), msg);
    assert!(core.peers().contains(&kp.device_id()));
    assert_eq!(out.len(), 1);
    match &out[0] {
        OutboundAction::SendMessage(to, Message::DiscoveryResponse { device_id, protocol_version, .. }) => {
            assert_eq!(*to, kp.device_id());
            assert_eq!(*device_id, core.device_id());
            assert_eq!(*protocol_version, PROTOCOL_VERSION);
        }
        _ => panic!("expected a DiscoveryResponse"),
    }
    let stale = Message::Beacon {
        protocol_version: PROTOCOL_VERSION + 1,
        device_id: Keypair::generate().device_id(),
        public_key: *kp.public_key(),
        listen_port: 1,
    };
    assert!(core.on_message_received(kp.device_id(), stale).is_empty());
    assert_eq!(core.peers().len(), 1);
}

#[test]
fn corrupt_chunk_data_is_nacked() {
    let mut core = PeaPodCore::new();
    let peer = join(&mut core);
    let tid = match core.on_incoming_request("http://x/f", Some((0, 9))) {
        Action::Accelerate { transfer_id, .. } => transfer_id,
        Action::Fallback => panic!("expected Accelerate"),
    };
    let msg = Message::ChunkData { transfer_id: tid, start: 0, end: 10, hash: [0; 32], payload: vec![1; 10] };
    let out = core.on_message_received(peer, msg);
    match &out[0] {
        OutboundAction::SendMessage(to, Message::Nack { transfer_id, start, end }) => {
            assert_eq!(*to, peer);
            assert_eq!((*transfer_id, *start, *end), (tid, 0, 10));
        }
        _ => panic!("expected a Nack"),
    }
}

#[test]
fn nack_moves_chunk_away_from_sender() {
    let mut core = PeaPodCore::new();
    let peer = join(&mut core);
    let (tid, assignment) = match core.on_incoming_request("http://x/f", Some((0, DEFAULT_CHUNK_SIZE + 9))) {
        Action::Accelerate { transfer_id, assignment, .. } => (transfer_id, assignment),
        Action::Fallback => panic!("expected Accelerate"),
    };
    let (chunk, owner) = assignment[1];
    assert_eq!(owner, peer);
    let out = core.on_message_received(peer, Message::Nack { transfer_id: tid, start: chunk.start, end: chunk.end });
    assert_eq!(out.len(), 1);
    assert!(matches!(out[0], OutboundAction::WanFetch { .. }));
    let plan = core.current_assignment().unwrap();
    let now = plan.iter().rev().find(|e| e.0 == chunk).unwrap().1;
    assert_eq!(now, core.device_id());
    assert_eq!(core.request_tick_of(&chunk), None);
}

#[test]
fn tick_sends_heartbeats_last() {
    let mut core = PeaPodCore::new();
    let a = join(&mut core);
    let b = join(&mut core);
    let out = core.tick();
    assert_eq!(core.tick_count(), 1);
    assert_eq!(out.len(), 2);
    let me = core.device_id();
    for (i, p) in [a, b].iter().enumerate() {
        match &out[i] {
            OutboundAction::SendMessage(to, Message::Heartbeat { device_id }) => {
                assert_eq!(to, p);
                assert_eq!(*device_id, me);
            }
            _ => panic!("expected a heartbeat"),
        }
    }
}

#[test]
fn each_request_mints_a_new_transfer_id() {
    let mut core = PeaPodCore::new();
    join(&mut core);
    let first = match core.on_incoming_request("http://x/a", Some((0, 9))) {
        Action::Accelerate { transfer_id, .. } => transfer_id,
        Action::Fallback => panic!("expected Accelerate"),
    };
    let second = match core.on_incoming_request("http://x/b", Some((0, 9))) {
        Action::Accelerate { transfer_id, .. } => transfer_id,
        Action::Fallback => panic!("expected Accelerate"),
    };
    assert_ne!(first, second);
    assert_eq!(first[6] >> 4, 4);
}

#[test]
fn timed_out_chunk_charges_its_worker() {
    let mut core = PeaPodCore::new();
    let peer = join(&mut core);
    let (tid, assignment) = match core.on_incoming_request("http://x/f", Some((0, DEFAULT_CHUNK_SIZE + 9))) {
        Action::Accelerate { transfer_id, assignment, .. } => (transfer_id, assignment),
        Action::Fallback => panic!("expected Accelerate"),
    };
    assert_eq!(assignment[1].1, peer);
    let _ = tid;
    for _ in 0..DEFAULT_CHUNK_TIMEOUT_TICKS {
        core.tick();
        core.on_heartbeat_received(peer);
    }
    let out = core.tick();
    assert!(core.peers().contains(&peer));
    let plan = core.current_assignment().unwrap();
    for c in [assignment[0].0, assignment[1].0] {
        assert_eq!(plan.iter().filter(|e| e.0 == c).count(), 1);
        assert_eq!(core.request_tick_of(&c), None);
    }
    let moved = plan.iter().find(|e| e.0 == assignment[1].0).unwrap().1;
    assert_ne!(moved, peer);
    // Two re-deal requests, then the heartbeat.
    assert_eq!(out.len(), 3);
    assert!(matches!(out[2], OutboundAction::SendMessage(_, Message::Heartbeat { .. })));
}

#[test]
fn own_beacon_is_ignored() {
    let mut core = PeaPodCore::new();
    let me = core.device_id();
    let msg = Message::Beacon { protocol_version: PROTOCOL_VERSION, device_id: me, public_key: peapod::PublicKey::from_bytes([0; 32]), listen_port: 1 };
    assert!(core.on_message_received(me, msg).is_empty());
    assert!(core.peers().is_empty());
}

#[test]
fn isolation_requests_come_back_from_receive_chunk() {
    let mut thresholds = Thresholds::new();
    thresholds.isolation_threshold = 1;
    let mut core = PeaPodCore::with_thresholds(Keypair::generate(), thresholds);
    let p = join(&mut core);
    let (tid, assignment) = match core.on_incoming_request("http://x/f", Some((0, DEFAULT_CHUNK_SIZE + 99))) {
        Action::Accelerate { transfer_id, assignment, .. } => (transfer_id, assignment),
        Action::Fallback => panic!("expected Accelerate"),
    };
    let (chunk, _) = assignment[1];
    let (r, requests) = core.receive_chunk(tid, chunk.start, chunk.end, [0u8; 32], vec![0u8; 100]);
    assert_eq!(r, Err(ChunkError::IntegrityFailed));
    assert!(core.is_isolated(&p));
    assert_eq!(requests.len(), 1);
    assert!(matches!(requests[0], OutboundAction::WanFetch { start, .. } if start == chunk.start));
    let plan = core.current_assignment().unwrap();
    assert_eq!(plan.len(), 2);
    assert!(plan.iter().all(|e| e.1 == core.device_id()));
}
