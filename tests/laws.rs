use peapod::chunk::{on_chunk_data_received, split_into_chunks, ChunkReceiveResult, TransferState, DEFAULT_CHUNK_SIZE};
use peapod::identity::{decrypt_wire, encrypt_wire};
use peapod::integrity::hash_chunk;
use peapod::scheduler::{assign_chunks_to_peers, assign_chunks_weighted};
use peapod::{decode_frame, encode_frame, Action, DeviceId, Keypair, PeaPodCore};

#[test]
fn tiling_holds_for_many_sizes() {
    for total in [0u64, 1, 29, 30, 31, 100, 1000] {
        for size in [0u64, 1, 7, 30, 1000] {
            let cs = split_into_chunks([3; 16], total, size);
            let s = if size == 0 { DEFAULT_CHUNK_SIZE } else { size };
            let mut at = 0;
            for c in &cs {
                assert_eq!(c.start, at);
                assert!(c.start < c.end && c.end - c.start <= s);
                at = c.end;
            }
            assert_eq!(at, total);
            assert_eq!(cs.len() as u64, (total + s - 1) / s);
        }
    }
}

#[test]
fn reassembly_round_trip_any_order() {
    let data: Vec<u8> = (0..257u32).map(|i| (i * 7 % 251) as u8).collect();
    let cs = split_into_chunks([4; 16], data.len() as u64, 16);
    let mut state = TransferState::new([4; 16], data.len() as u64, cs.clone());
    let mut body = None;
    for c in cs.iter().rev() {
        let p = data[c.start as usize..c.end as usize].to_vec();
        if let ChunkReceiveResult::Complete(b) = on_chunk_data_received(&mut state, [4; 16], c.start, c.end, hash_chunk(&p), p) {
            body = Some(b);
        }
    }
    assert_eq!(body.unwrap(), data);
}

#[test]
fn repeated_delivery_is_a_no_op() {
    let mut core = PeaPodCore::new();
    let peer = Keypair::generate();
    core.on_peer_joined(peer.device_id(), peer.public_key());
    let tid = match core.on_incoming_request("http://x/f", Some((0, DEFAULT_CHUNK_SIZE + 9))) {
        Action::Accelerate { transfer_id, .. } => transfer_id,
        Action::Fallback => panic!("expected Accelerate"),
    };
    let p = vec![5u8; DEFAULT_CHUNK_SIZE as usize];
    assert_eq!(core.on_chunk_received(tid, 0, DEFAULT_CHUNK_SIZE, hash_chunk(&p), p.clone()), Ok(None));
    let plan = core.current_assignment();
    assert_eq!(core.on_chunk_received(tid, 0, DEFAULT_CHUNK_SIZE, hash_chunk(&p), p), Ok(None));
    assert_eq!(core.current_assignment(), plan);
}

#[test]
fn conservation_for_every_worker_count() {
    let cs = split_into_chunks([0; 16], 1000, 30);
    for n in 1..6u8 {
        let ws: Vec<DeviceId> = (0..n).map(|i| DeviceId::from_bytes([i; 16])).collect();
        assert_eq!(assign_chunks_to_peers(&cs, &ws).len(), cs.len());
        let weights: Vec<u64> = (0..n as u64).map(|i| i * 3 + 1).collect();
        assert_eq!(assign_chunks_weighted(&cs, &ws, &weights).len(), cs.len());
    }
}

#[test]
fn live_peer_stays_across_ticks() {
    let mut core = PeaPodCore::new();
    let p = Keypair::generate();
    core.on_peer_joined(p.device_id(), p.public_key());
    for _ in 0..20 {
        core.tick();
        assert!(core.peers().contains(&p.device_id()));
        core.on_heartbeat_received(p.device_id());
    }
    for _ in 0..5 {
        core.tick();
        assert!(core.peers().contains(&p.device_id()));
    }
    core.tick();
    assert!(!core.peers().contains(&p.device_id()));
}

#[test]
fn frame_round_trip_with_trailing_bytes() {
    for len in [0usize, 1, 3, 255, 256, 70000] {
        let payload: Vec<u8> = (0..len).map(|i| i as u8).collect();
        let mut frame = encode_frame(&payload).unwrap();
        let n = frame.len();
        frame.extend_from_slice(&[9, 9, 9]);
        assert_eq!(decode_frame(&frame), Ok((payload, n)));
    }
}

#[test]
fn crypto_round_trip_for_many_nonces() {
    let key = [0x5au8; 32];
    for nonce in [0u64, 1, 255, 1 << 40, u64::MAX] {
        let p: Vec<u8> = (0..100u8).collect();
        let c = encrypt_wire(&key, nonce, &p).unwrap();
        assert_eq!(decrypt_wire(&key, nonce, &c).unwrap(), p);
    }
}
