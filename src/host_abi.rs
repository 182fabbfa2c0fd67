//! Byte layouts with which a C host receives the coordinator's answers.

use vstd::prelude::*;
use vstd::bytes::{spec_u32_to_le_bytes, spec_u64_to_le_bytes, u32_to_le_bytes, u64_to_le_bytes};
use crate::bytes::append_bytes;
use crate::chunk::ChunkId;
use crate::identity::DeviceId;

verus! {

/// One plan entry: the worker's id, then the chunk's start and end (8 bytes
/// each, little-endian).
pub open spec fn plan_entry_bytes(e: (ChunkId, DeviceId)) -> Seq<u8> {
    e.1.0@ + spec_u64_to_le_bytes(e.0.start) + spec_u64_to_le_bytes(e.0.end)
}

pub open spec fn plan_entries_bytes(a: Seq<(ChunkId, DeviceId)>) -> Seq<u8>
    decreases a.len(),
{
    if a.len() == 0 {
        Seq::empty()
    } else {
        plan_entries_bytes(a.drop_last()) + plan_entry_bytes(a.last())
    }
}

/// An accelerated plan: transfer id (16 bytes), total length (8 bytes),
/// number of entries (4 bytes), then the entries.
pub open spec fn plan_bytes(transfer_id: [u8; 16], total_length: u64, a: Seq<(ChunkId, DeviceId)>) -> Seq<u8> {
    transfer_id@ + spec_u64_to_le_bytes(total_length) + spec_u32_to_le_bytes(a.len() as u32) + plan_entries_bytes(a)
}

/// One outbound action: the peer's id, the payload's length (4 bytes), the
/// payload.
pub open spec fn action_entry_bytes(peer: DeviceId, payload: Seq<u8>) -> Seq<u8> {
    peer.0@ + spec_u32_to_le_bytes(payload.len() as u32) + payload
}

pub open spec fn action_entries_bytes(es: Seq<(DeviceId, Vec<u8>)>) -> Seq<u8>
    decreases es.len(),
{
    if es.len() == 0 {
        Seq::empty()
    } else {
        action_entries_bytes(es.drop_last()) + action_entry_bytes(es.last().0, es.last().1@)
    }
}

/// A list of outbound actions: their number (4 bytes), then each action.
pub open spec fn action_list_bytes(es: Seq<(DeviceId, Vec<u8>)>) -> Seq<u8> {
    spec_u32_to_le_bytes(es.len() as u32) + action_entries_bytes(es)
}

/// Lays out an accelerated plan for a C host.
pub fn encode_plan(transfer_id: [u8; 16], total_length: u64, assignment: &[(ChunkId, DeviceId)]) -> (r: Vec<u8>)
    requires
        assignment@.len() <= u32::MAX,
    ensures
        r@ == plan_bytes(transfer_id, total_length, assignment@),
{
    let mut out: Vec<u8> = Vec::new();
    append_bytes(&mut out, transfer_id.as_slice());
    let total = u64_to_le_bytes(total_length);
    append_bytes(&mut out, total.as_slice());
    let count = u32_to_le_bytes(assignment.len() as u32);
    append_bytes(&mut out, count.as_slice());
    let ghost head = out@;
    let mut i: usize = 0;
    while i < assignment.len()
        invariant
            0 <= i <= assignment@.len(),
            out@ == head + plan_entries_bytes(assignment@.subrange(0, i as int)),
        decreases assignment@.len() - i,
    {
        let (c, d) = assignment[i];
        let ghost before = out@;
        append_bytes(&mut out, d.0.as_slice());
        let s = u64_to_le_bytes(c.start);
        append_bytes(&mut out, s.as_slice());
        let e = u64_to_le_bytes(c.end);
        append_bytes(&mut out, e.as_slice());
        proof {
            let a = assignment@.subrange(0, i as int + 1);
            assert(a.drop_last() =~= assignment@.subrange(0, i as int));
            assert(a.last() == (c, d));
            assert(out@ =~= before + plan_entry_bytes((c, d)));
            assert(out@ =~= head + plan_entries_bytes(a));
        }
        i = i + 1;
    }
    proof {
        assert(assignment@.subrange(0, assignment@.len() as int) =~= assignment@);
        assert(head =~= transfer_id@ + spec_u64_to_le_bytes(total_length) + spec_u32_to_le_bytes(
            assignment@.len() as u32,
        ));
    }
    out
}

/// Lays out a list of outbound actions (peer and payload) for a C host.
pub fn encode_action_list(actions: &[(DeviceId, Vec<u8>)]) -> (r: Vec<u8>)
    requires
        actions@.len() <= u32::MAX,
        forall|i: int| 0 <= i < actions@.len() ==> (#[trigger] actions@[i]).1@.len() <= u32::MAX,
    ensures
        r@ == action_list_bytes(actions@),
{
    let mut out = u32_to_le_bytes(actions.len() as u32);
    let ghost head = out@;
    let mut i: usize = 0;
    while i < actions.len()
        invariant
            0 <= i <= actions@.len(),
            forall|q: int| 0 <= q < actions@.len() ==> (#[trigger] actions@[q]).1@.len() <= u32::MAX,
            out@ == head + action_entries_bytes(actions@.subrange(0, i as int)),
        decreases actions@.len() - i,
    {
        let peer = actions[i].0;
        let payload = &actions[i].1;
        let ghost before = out@;
        append_bytes(&mut out, peer.0.as_slice());
        assert(actions@[i as int].1@.len() <= u32::MAX);
        let len = u32_to_le_bytes(payload.len() as u32);
        append_bytes(&mut out, len.as_slice());
        append_bytes(&mut out, payload.as_slice());
        proof {
            let a = actions@.subrange(0, i as int + 1);
            assert(a.drop_last() =~= actions@.subrange(0, i as int));
            assert(a.last() == actions@[i as int]);
            assert(out@ =~= before + action_entry_bytes(peer, payload@));
            assert(out@ =~= head + action_entries_bytes(a));
        }
        i = i + 1;
    }
    proof {
        assert(actions@.subrange(0, actions@.len() as int) =~= actions@);
    }
    out
}

} // verus!
