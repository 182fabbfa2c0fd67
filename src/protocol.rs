//! Protocol messages exchanged between devices of a pod.

use vstd::prelude::*;
use crate::identity::{DeviceId, PublicKey};

verus! {

/// Current protocol version, carried in beacons and in the handshake.
pub const PROTOCOL_VERSION: u8 = 1;

/// Every message of the wire protocol.
#[derive(Debug, Clone)]
pub enum Message {
    /// Discovery: advertises presence.
    Beacon { protocol_version: u8, device_id: DeviceId, public_key: PublicKey, listen_port: u16 },
    /// Answer to a beacon: acknowledges it and advertises the responder.
    DiscoveryResponse {
        protocol_version: u8,
        device_id: DeviceId,
        public_key: PublicKey,
        listen_port: u16,
    },
    /// Request to join the pod, or confirmation of membership.
    Join { device_id: DeviceId },
    /// Graceful leave.
    Leave { device_id: DeviceId },
    /// Liveness heartbeat.
    Heartbeat { device_id: DeviceId },
    /// Request for the range `[start, end)` of a transfer.
    ChunkRequest { transfer_id: [u8; 16], start: u64, end: u64 },
    /// A chunk's payload with its SHA-256 digest.
    ChunkData { transfer_id: [u8; 16], start: u64, end: u64, hash: [u8; 32], payload: Vec<u8> },
    /// The chunk could not be delivered: it must be fetched elsewhere.
    Nack { transfer_id: [u8; 16], start: u64, end: u64 },
}

/// Size of a handshake: version, device id, public key.
pub const HANDSHAKE_SIZE: usize = 49;

/// The handshake a device sends on connecting: the protocol version, its
/// device id, then its public key.
pub open spec fn handshake_of(device_id: DeviceId, public_key: PublicKey) -> Seq<u8> {
    seq![PROTOCOL_VERSION] + device_id.0@ + public_key.0@
}

/// Encodes this device's handshake.
pub fn handshake_bytes(device_id: &DeviceId, public_key: &PublicKey) -> (r: Vec<u8>)
    ensures
        r@ == handshake_of(*device_id, *public_key),
        r@.len() == HANDSHAKE_SIZE,
{
    let mut out: Vec<u8> = Vec::new();
    out.push(PROTOCOL_VERSION);
    crate::bytes::append_bytes(&mut out, device_id.0.as_slice());
    crate::bytes::append_bytes(&mut out, public_key.0.as_slice());
    out
}

/// Decodes a peer's handshake: `None` unless it is exactly
/// `HANDSHAKE_SIZE` bytes long and carries this protocol version.
pub fn parse_handshake(bytes: &[u8]) -> (r: Option<(DeviceId, PublicKey)>)
    ensures
        r is Some <==> bytes@.len() == HANDSHAKE_SIZE && bytes@[0] == PROTOCOL_VERSION,
        r matches Some((d, p)) ==> handshake_of(d, p) == bytes@,
{
    if bytes.len() != HANDSHAKE_SIZE || bytes[0] != PROTOCOL_VERSION {
        return None;
    }
    let mut id: [u8; 16] = [0u8; 16];
    let mut key: [u8; 32] = [0u8; 32];
    let mut i: usize = 0;
    while i < 16
        invariant
            0 <= i <= 16,
            bytes@.len() == HANDSHAKE_SIZE,
            forall|j: int| 0 <= j < i ==> id@[j] == bytes@[1 + j],
        decreases 16 - i,
    {
        id[i] = bytes[1 + i];
        i = i + 1;
    }
    let mut j: usize = 0;
    while j < 32
        invariant
            0 <= j <= 32,
            bytes@.len() == HANDSHAKE_SIZE,
            forall|q: int| 0 <= q < j ==> key@[q] == bytes@[17 + q],
        decreases 32 - j,
    {
        key[j] = bytes[17 + j];
        j = j + 1;
    }
    proof {
        assert(handshake_of(DeviceId(id), PublicKey(key)) =~= bytes@);
    }
    Some((DeviceId(id), PublicKey(key)))
}

/// The device that a discovery message of this protocol version announces:
/// its id, public key and transport port.
pub fn discovery_announcement(msg: &Message) -> (r: Option<(DeviceId, PublicKey, u16)>)
    ensures
        match *msg {
            Message::Beacon { protocol_version, device_id, public_key, listen_port } => r == (if protocol_version
                == PROTOCOL_VERSION {
                Some((device_id, public_key, listen_port))
            } else {
                None
            }),
            Message::DiscoveryResponse { protocol_version, device_id, public_key, listen_port } => r == (
            if protocol_version == PROTOCOL_VERSION {
                Some((device_id, public_key, listen_port))
            } else {
                None
            }),
            _ => r is None,
        },
{
    match msg {
        Message::Beacon { protocol_version, device_id, public_key, listen_port }
        | Message::DiscoveryResponse { protocol_version, device_id, public_key, listen_port } => {
            if *protocol_version == PROTOCOL_VERSION {
                Some((*device_id, *public_key, *listen_port))
            } else {
                None
            }
        },
        _ => None,
    }
}

} // verus!
