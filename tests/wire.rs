use peapod::coordinator::message_error_of;
use peapod::protocol::handshake_bytes;
use peapod::wire::MAX_FRAME_LEN;
use peapod::{decode_frame, encode_frame, FrameDecodeError, FrameEncodeError, Keypair, MessageError};

fn sample_payload() -> Vec<u8> {
    let kp = Keypair::generate();
    handshake_bytes(&kp.device_id(), kp.public_key())
}

#[test]
fn roundtrip_beacon() {
    let payload = sample_payload();
    let frame = encode_frame(&payload).unwrap();
    let (decoded, n) = decode_frame(&frame).unwrap();
    assert_eq!(n, frame.len());
    assert_eq!(decoded, payload);
}

#[test]
fn partial_read_need_more() {
    let frame = encode_frame(&sample_payload()).unwrap();
    assert!(matches!(decode_frame(&frame[..2]), Err(FrameDecodeError::NeedMore)));
    assert!(matches!(decode_frame(&frame[..4]), Err(FrameDecodeError::NeedMore)));
}

#[test]
fn multiple_messages() {
    let a = sample_payload();
    let b = vec![1u8, 2, 3];
    let fa = encode_frame(&a).unwrap();
    let fb = encode_frame(&b).unwrap();
    let mut buf = Vec::new();
    buf.extend_from_slice(&fa);
    buf.extend_from_slice(&fb);
    let (m1, n1) = decode_frame(&buf).unwrap();
    assert_eq!(n1, fa.len());
    let (m2, n2) = decode_frame(&buf[n1..]).unwrap();
    assert_eq!(n2, fb.len());
    assert_eq!(m1, a);
    assert_eq!(m2, b);
}

#[test]
fn frame_layout_is_length_then_payload() {
    let frame = encode_frame(&[0xAA, 0xBB, 0xCC]).unwrap();
    assert_eq!(frame, vec![3, 0, 0, 0, 0xAA, 0xBB, 0xCC]);
    let empty = encode_frame(&[]).unwrap();
    assert_eq!(empty, vec![0, 0, 0, 0]);
    assert_eq!(decode_frame(&empty), Ok((vec![], 4)));
}

#[test]
fn oversize_frames_are_refused() {
    let big = vec![0u8; MAX_FRAME_LEN as usize + 1];
    assert_eq!(encode_frame(&big), Err(FrameEncodeError::TooLarge));
    let limit = vec![0u8; MAX_FRAME_LEN as usize];
    assert_eq!(encode_frame(&limit).unwrap().len(), MAX_FRAME_LEN as usize + 4);
    let header = (MAX_FRAME_LEN + 1).to_le_bytes();
    assert_eq!(decode_frame(&header), Err(FrameDecodeError::TooLarge));
}

#[test]
fn on_message_received_decode_error() {
    let result = decode_frame(&[0xFF, 0xFF]).map_err(message_error_of);
    assert!(matches!(result, Err(MessageError::DecodeError)));
    let too_large = decode_frame(&[0xFF, 0xFF, 0xFF, 0xFF]).map_err(message_error_of);
    assert!(matches!(too_large, Err(MessageError::FrameTooLarge)));
}
