use peapod::chunk::{
    on_chunk_data_received, split_into_chunks, ChunkReceiveResult, TransferState, DEFAULT_CHUNK_SIZE,
};
use peapod::integrity::hash_chunk;

#[test]
fn split_chunks() {
    let id = [1u8; 16];
    let chunks = split_into_chunks(id, 100, 30);
    assert_eq!(chunks.len(), 4);
    assert_eq!(chunks[0].start, 0);
    assert_eq!(chunks[0].end, 30);
    assert_eq!(chunks[3].start, 90);
    assert_eq!(chunks[3].end, 100);
}

#[test]
fn split_chunks_exact() {
    let id = [1u8; 16];
    let chunks = split_into_chunks(id, 90, 30);
    assert_eq!(chunks.len(), 3);
    assert_eq!(chunks[2].end, 90);
}

#[test]
fn split_chunks_single() {
    let id = [1u8; 16];
    let chunks = split_into_chunks(id, 10, 100);
    assert_eq!(chunks.len(), 1);
    assert_eq!(chunks[0].start, 0);
    assert_eq!(chunks[0].end, 10);
}

#[test]
fn split_chunks_zero_length() {
    let id = [1u8; 16];
    let chunks = split_into_chunks(id, 0, 30);
    assert!(chunks.is_empty());
}

#[test]
fn split_chunks_default_size() {
    let id = [1u8; 16];
    let chunks = split_into_chunks(id, DEFAULT_CHUNK_SIZE * 3, 0);
    assert_eq!(chunks.len(), 3);
}

#[test]
fn split_by_30_over_100_ranges() {
    let chunks = split_into_chunks([1u8; 16], 100, 30);
    let ranges: Vec<(u64, u64)> = chunks.iter().map(|c| (c.start, c.end)).collect();
    assert_eq!(ranges, vec![(0, 30), (30, 60), (60, 90), (90, 100)]);
    assert!(chunks.iter().all(|c| c.transfer_id == [1u8; 16]));
}

#[test]
fn split_near_u64_max_does_not_overflow() {
    let chunks = split_into_chunks([0u8; 16], u64::MAX, u64::MAX - 1);
    assert_eq!(chunks.len(), 2);
    assert_eq!(chunks[0].end, u64::MAX - 1);
    assert_eq!(chunks[1].start, u64::MAX - 1);
    assert_eq!(chunks[1].end, u64::MAX);
}

#[test]
fn transfer_state_reassemble() {
    let id = [2u8; 16];
    let chunks = split_into_chunks(id, 100, 30);
    let mut state = TransferState::new(id, 100, chunks.clone());
    assert!(!state.is_complete());
    for c in &chunks {
        let payload: Vec<u8> = (c.start..c.end).map(|i| i as u8).collect();
        let hash = hash_chunk(&payload);
        let r = on_chunk_data_received(&mut state, c.transfer_id, c.start, c.end, hash, payload);
        match r {
            ChunkReceiveResult::InProgress => {}
            ChunkReceiveResult::Complete(bytes) => {
                assert_eq!(bytes.len(), 100);
                for (i, &b) in bytes.iter().enumerate() {
                    assert_eq!(b, i as u8);
                }
            }
            ChunkReceiveResult::IntegrityFailed => panic!("integrity failed"),
            ChunkReceiveResult::Poisoned => panic!("poisoned"),
        }
    }
    assert!(state.is_complete());
}

#[test]
fn duplicate_chunk_idempotent() {
    let id = [3u8; 16];
    let chunks = split_into_chunks(id, 60, 30);
    let mut state = TransferState::new(id, 60, chunks.clone());
    let payload: Vec<u8> = (0..30).collect();
    let hash = hash_chunk(&payload);
    let r1 = on_chunk_data_received(&mut state, id, 0, 30, hash, payload.clone());
    assert!(matches!(r1, ChunkReceiveResult::InProgress));
    let r2 = on_chunk_data_received(&mut state, id, 0, 30, hash, payload);
    assert!(matches!(r2, ChunkReceiveResult::InProgress));
}

#[test]
fn integrity_failure_rejects_tampered() {
    let id = [4u8; 16];
    let chunks = split_into_chunks(id, 30, 30);
    let mut state = TransferState::new(id, 30, chunks);
    let payload = vec![1u8; 30];
    let bad_hash = [0u8; 32];
    let r = on_chunk_data_received(&mut state, id, 0, 30, bad_hash, payload);
    assert!(matches!(r, ChunkReceiveResult::IntegrityFailed));
    assert!(!state.is_complete());
}

#[test]
fn in_flight_tracking() {
    let id = [5u8; 16];
    let chunks = split_into_chunks(id, 60, 30);
    let mut state = TransferState::new(id, 60, chunks.clone());
    state.mark_in_flight(chunks[0]);
    assert!(state.in_flight().contains(&chunks[0]));
    let payload: Vec<u8> = (0..30).collect();
    let _hash = hash_chunk(&payload);
    state.mark_received(chunks[0], payload);
    assert!(!state.in_flight().contains(&chunks[0]));
}

#[test]
fn reassembly_completeness() {
    let tid = [3u8; 16];
    let data: Vec<u8> = (0..500u16).map(|i| (i % 256) as u8).collect();
    let chunks = split_into_chunks(tid, data.len() as u64, 100);
    let mut state = TransferState::new(tid, data.len() as u64, chunks.clone());
    for c in &chunks {
        let payload = data[c.start as usize..c.end as usize].to_vec();
        let hash = hash_chunk(&payload);
        on_chunk_data_received(&mut state, tid, c.start, c.end, hash, payload);
    }
    assert!(state.is_complete());
    let reassembled = state.reassemble_into_bytes();
    assert_eq!(reassembled, data);
}

#[test]
fn duplicate_chunk_handling() {
    let tid = [4u8; 16];
    let data = vec![42u8; 200];
    let chunks = split_into_chunks(tid, data.len() as u64, 100);
    let mut state = TransferState::new(tid, data.len() as u64, chunks.clone());
    let c = &chunks[0];
    let payload = data[c.start as usize..c.end as usize].to_vec();
    let hash = hash_chunk(&payload);
    let r1 = on_chunk_data_received(&mut state, tid, c.start, c.end, hash, payload.clone());
    assert!(matches!(r1, ChunkReceiveResult::InProgress));
    let r2 = on_chunk_data_received(&mut state, tid, c.start, c.end, hash, payload);
    assert!(matches!(r2, ChunkReceiveResult::InProgress));
    let c2 = &chunks[1];
    let payload2 = data[c2.start as usize..c2.end as usize].to_vec();
    let hash2 = hash_chunk(&payload2);
    let r3 = on_chunk_data_received(&mut state, tid, c2.start, c2.end, hash2, payload2);
    assert!(matches!(r3, ChunkReceiveResult::Complete(_)));
}

#[test]
fn full_reassembly_split_by_30() {
    let tid = [1u8; 16];
    let chunks = split_into_chunks(tid, 100, 30);
    let mut state = TransferState::new(tid, 100, chunks.clone());
    let mut body = None;
    for c in &chunks {
        let payload: Vec<u8> = (c.start..c.end).map(|i| (i % 256) as u8).collect();
        let hash = hash_chunk(&payload);
        if let ChunkReceiveResult::Complete(b) =
            on_chunk_data_received(&mut state, tid, c.start, c.end, hash, payload)
        {
            body = Some(b);
        }
    }
    let body = body.expect("the last chunk completes the transfer");
    assert_eq!(body.len(), 100);
    for (i, b) in body.iter().enumerate() {
        assert_eq!(*b, i as u8);
    }
}

#[test]
fn wrong_transfer_id_is_rejected() {
    let tid = [6u8; 16];
    let chunks = split_into_chunks(tid, 30, 30);
    let mut state = TransferState::new(tid, 30, chunks);
    let payload = vec![9u8; 30];
    let hash = hash_chunk(&payload);
    let r = on_chunk_data_received(&mut state, [7u8; 16], 0, 30, hash, payload);
    assert!(matches!(r, ChunkReceiveResult::IntegrityFailed));
    assert!(!state.is_received(&state.chunk_ids()[0].clone()));
}

#[test]
fn unknown_range_is_ignored_and_any_verified_payload_stored() {
    let tid = [6u8; 16];
    let chunks = split_into_chunks(tid, 60, 30);
    let mut state = TransferState::new(tid, 60, chunks.clone());
    let odd = vec![1u8; 20];
    let r = on_chunk_data_received(&mut state, tid, 0, 20, hash_chunk(&odd), odd.clone());
    assert!(matches!(r, ChunkReceiveResult::InProgress));
    assert!(!state.is_received(&chunks[0]));
    let r = on_chunk_data_received(&mut state, tid, 0, 20, [0u8; 32], odd);
    assert!(matches!(r, ChunkReceiveResult::IntegrityFailed));
    let short = vec![1u8; 29];
    let r = on_chunk_data_received(&mut state, tid, 0, 30, hash_chunk(&short), short.clone());
    assert!(matches!(r, ChunkReceiveResult::InProgress));
    assert!(state.is_received(&chunks[0]));
    let rest = vec![2u8; 30];
    let r = on_chunk_data_received(&mut state, tid, 30, 60, hash_chunk(&rest), rest.clone());
    match r {
        ChunkReceiveResult::Complete(body) => assert_eq!(body, [short, rest].concat()),
        _ => panic!("expected Complete"),
    }
    let again = vec![3u8; 5];
    let r = on_chunk_data_received(&mut state, tid, 0, 5, hash_chunk(&again), again);
    assert!(matches!(r, ChunkReceiveResult::Complete(_)));
}

#[test]
fn conflicting_redelivery_poisons() {
    let tid = [8u8; 16];
    let chunks = split_into_chunks(tid, 60, 30);
    let mut state = TransferState::new(tid, 60, chunks);
    let a = vec![1u8; 30];
    let b = vec![2u8; 30];
    let r1 = on_chunk_data_received(&mut state, tid, 0, 30, hash_chunk(&a), a.clone());
    assert!(matches!(r1, ChunkReceiveResult::InProgress));
    let r2 = on_chunk_data_received(&mut state, tid, 0, 30, hash_chunk(&b), b);
    assert!(matches!(r2, ChunkReceiveResult::Poisoned));
    let c = state.chunk_ids()[0];
    assert!(state.is_received(&c));
    assert_eq!(state.reassemble_into_bytes(), a);
}

#[test]
fn mark_failed_leaves_flight() {
    let tid = [9u8; 16];
    let chunks = split_into_chunks(tid, 60, 30);
    let mut state = TransferState::new(tid, 60, chunks.clone());
    state.mark_all_in_flight();
    assert_eq!(state.in_flight(), chunks);
    state.mark_failed(chunks[1]);
    assert_eq!(state.in_flight(), vec![chunks[0]]);
    assert_eq!(state.transfer_id(), tid);
    assert_eq!(state.total_length(), 60);
}
