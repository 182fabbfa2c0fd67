//! Core coordination engine of a LAN-cooperative HTTP download accelerator.
//!
//! Devices on one network pool their upstream bandwidth: one device's range
//! download is split into chunks, the chunks are dealt to peers that fetch
//! them from the WAN, and the byte stream is reassembled once every chunk has
//! arrived and matched its digest. The library is a host-driven state
//! machine: the host performs all I/O and hands events to the coordinator,
//! which answers with actions to perform.

pub mod bytes;
pub mod identity;
pub mod integrity;
pub mod chunk;
pub mod protocol;
pub mod scheduler;
pub mod wire;
pub mod coordinator;
pub mod config;
pub mod proxy;
pub mod host_abi;

pub use chunk::ChunkId;
pub use coordinator::{Action, ChunkError, MessageError, OutboundAction, PeaPodCore, Thresholds};
pub use identity::{DeviceId, Keypair, PublicKey};
pub use protocol::{Message, PROTOCOL_VERSION};
pub use scheduler::PeerMetrics;
pub use wire::{decode_frame, encode_frame, FrameDecodeError, FrameEncodeError};
