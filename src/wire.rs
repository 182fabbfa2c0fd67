//! Framing: a 4-byte little-endian length followed by that many payload bytes.

use vstd::prelude::*;
use vstd::bytes::{spec_u32_from_le_bytes, spec_u32_to_le_bytes, u32_from_le_bytes, u32_to_le_bytes};
use crate::bytes::append_bytes;

verus! {

/// Size of the length prefix.
pub const LEN_SIZE: usize = 4;

/// Largest payload a frame may carry (16 MiB).
pub const MAX_FRAME_LEN: u32 = 16777216;

/// Error encoding a frame.
#[derive(Debug, Clone, Copy, PartialEq, Eq, Structural)]
pub enum FrameEncodeError {
    /// The payload is longer than `MAX_FRAME_LEN`.
    TooLarge,
}

/// Error decoding a frame.
#[derive(Debug, Clone, Copy, PartialEq, Eq, Structural)]
pub enum FrameDecodeError {
    /// The buffer does not hold a whole frame yet.
    NeedMore,
    /// The announced length is over `MAX_FRAME_LEN`.
    TooLarge,
}

/// The frame of a payload.
pub open spec fn frame_of(payload: Seq<u8>) -> Seq<u8> {
    spec_u32_to_le_bytes(payload.len() as u32) + payload
}

/// What decoding the front of `bytes` yields: the payload of the first frame
/// and the number of bytes it takes, or why there is none.
pub open spec fn decode_spec(bytes: Seq<u8>) -> Result<(Seq<u8>, nat), FrameDecodeError> {
    if bytes.len() < LEN_SIZE {
        Err(FrameDecodeError::NeedMore)
    } else {
        let len = spec_u32_from_le_bytes(bytes.subrange(0, 4));
        if len > MAX_FRAME_LEN {
            Err(FrameDecodeError::TooLarge)
        } else if bytes.len() < LEN_SIZE + len {
            Err(FrameDecodeError::NeedMore)
        } else {
            Ok((bytes.subrange(4, 4 + len), (4 + len) as nat))
        }
    }
}

/// Frames a payload: its length as 4 little-endian bytes, then the payload.
pub fn encode_frame(payload: &[u8]) -> (r: Result<Vec<u8>, FrameEncodeError>)
    ensures
        r is Ok <==> payload@.len() <= MAX_FRAME_LEN,
        r matches Ok(f) ==> f@ == frame_of(payload@),
        r matches Err(e) ==> e == FrameEncodeError::TooLarge,
{
    if payload.len() > MAX_FRAME_LEN as usize {
        return Err(FrameEncodeError::TooLarge);
    }
    let mut out = u32_to_le_bytes(payload.len() as u32);
    append_bytes(&mut out, payload);
    Ok(out)
}

/// Decodes the frame at the front of `bytes`: its payload and the number of
/// bytes consumed. A caller reading a stream advances by that number.
pub fn decode_frame(bytes: &[u8]) -> (r: Result<(Vec<u8>, usize), FrameDecodeError>)
    ensures
        match r {
            Ok((p, n)) => decode_spec(bytes@) == Ok::<(Seq<u8>, nat), FrameDecodeError>((p@, n as nat)),
            Err(e) => decode_spec(bytes@) == Err::<(Seq<u8>, nat), FrameDecodeError>(e),
        },
{
    if bytes.len() < LEN_SIZE {
        return Err(FrameDecodeError::NeedMore);
    }
    let prefix = vstd::slice::slice_subrange(bytes, 0, 4);
    let len = u32_from_le_bytes(prefix);
    if len > MAX_FRAME_LEN {
        return Err(FrameDecodeError::TooLarge);
    }
    let len = len as usize;
    if bytes.len() - LEN_SIZE < len {
        return Err(FrameDecodeError::NeedMore);
    }
    let body = vstd::slice::slice_subrange(bytes, LEN_SIZE, LEN_SIZE + len);
    Ok((vstd::slice::slice_to_vec(body), LEN_SIZE + len))
}

/// Decoding the frame of a payload, followed by any bytes, gives back the
/// payload and the frame's length.
pub proof fn lemma_frame_round_trip(payload: Seq<u8>, rest: Seq<u8>)
    requires
        payload.len() <= MAX_FRAME_LEN,
    ensures
        decode_spec(frame_of(payload) + rest) == Ok::<(Seq<u8>, nat), FrameDecodeError>(
            (payload, frame_of(payload).len()),
        ),
        frame_of(payload).len() == payload.len() + 4,
{
    vstd::bytes::lemma_auto_spec_u32_to_from_le_bytes();
    let b = frame_of(payload) + rest;
    let len = payload.len() as u32;
    assert(b.subrange(0, 4) =~= spec_u32_to_le_bytes(len));
    assert(b.subrange(4, 4 + payload.len() as int) =~= payload);
}

} // verus!
