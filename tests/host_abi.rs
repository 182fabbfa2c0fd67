use peapod::host_abi::{encode_action_list, encode_plan};
use peapod::{ChunkId, DeviceId};

#[test]
fn plan_layout() {
    let tid = [7u8; 16];
    let d = DeviceId::from_bytes([1; 16]);
    let c = ChunkId { transfer_id: tid, start: 2, end: 258 };
    let bytes = encode_plan(tid, 258, &[(c, d)]);
    let mut expected = vec![7u8; 16];
    expected.extend_from_slice(&258u64.to_le_bytes());
    expected.extend_from_slice(&1u32.to_le_bytes());
    expected.extend_from_slice(&[1u8; 16]);
    expected.extend_from_slice(&2u64.to_le_bytes());
    expected.extend_from_slice(&258u64.to_le_bytes());
    assert_eq!(bytes, expected);
    assert_eq!(encode_plan(tid, 0, &[]).len(), 28);
}

#[test]
fn action_list_layout() {
    let a = DeviceId::from_bytes([2; 16]);
    let b = DeviceId::from_bytes([3; 16]);
    let bytes = encode_action_list(&[(a, vec![9, 8]), (b, vec![])]);
    let mut expected = 2u32.to_le_bytes().to_vec();
    expected.extend_from_slice(&[2u8; 16]);
    expected.extend_from_slice(&2u32.to_le_bytes());
    expected.extend_from_slice(&[9, 8]);
    expected.extend_from_slice(&[3u8; 16]);
    expected.extend_from_slice(&0u32.to_le_bytes());
    assert_eq!(bytes, expected);
    assert_eq!(encode_action_list(&[]), vec![0, 0, 0, 0]);
}
