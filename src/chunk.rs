//! Chunk manager: splits a transfer into chunks, tracks which chunks are in
//! flight and which were received, and reassembles the byte stream.

use vstd::prelude::*;
use crate::bytes::{append_bytes, bytes_equal};
use crate::integrity::{sha256_of, verify_chunk};
use crate::protocol::Message;

verus! {

/// Default chunk size in bytes (256 KiB).
pub const DEFAULT_CHUNK_SIZE: u64 = 262144;

/// A chunk of a transfer: the half-open byte range `[start, end)`.
#[derive(Debug, Clone, Copy, Eq, Hash)]
pub struct ChunkId {
    pub transfer_id: [u8; 16],
    pub start: u64,
    pub end: u64,
}

impl PartialEq for ChunkId {
    fn eq(&self, o: &ChunkId) -> (r: bool) {
        if self.start != o.start || self.end != o.end {
            return false;
        }
        let r = bytes_equal(self.transfer_id.as_slice(), o.transfer_id.as_slice());
        proof {
            if r {
                assert(self.transfer_id =~= o.transfer_id);
            }
        }
        r
    }
}

impl vstd::std_specs::cmp::PartialEqSpecImpl for ChunkId {
    open spec fn obeys_eq_spec() -> bool {
        true
    }

    open spec fn eq_spec(&self, o: &ChunkId) -> bool {
        *self == *o
    }
}

/// The chunk size actually used for a requested size (0 selects the default).
pub open spec fn effective_size(chunk_size: u64) -> nat {
    if chunk_size == 0 {
        DEFAULT_CHUNK_SIZE as nat
    } else {
        chunk_size as nat
    }
}

/// `cs` covers `[0, total)` contiguously, in order, without overlap, and every
/// chunk belongs to transfer `tid` and is non-empty.
pub open spec fn tiles(cs: Seq<ChunkId>, tid: [u8; 16], total: nat) -> bool {
    &&& forall|k: int|
        0 <= k < cs.len() ==> (#[trigger] cs[k]).transfer_id == tid && cs[k].start < cs[k].end
            && cs[k].end <= total
    &&& forall|k: int| 0 <= k < cs.len() - 1 ==> (#[trigger] cs[k]).end == cs[k + 1].start
    &&& cs.len() == 0 ==> total == 0
    &&& cs.len() > 0 ==> cs[0].start == 0 && cs.last().end == total
}

/// `cs` is the split of `[0, total)` into chunks of `size` bytes, the last
/// one possibly shorter.
pub open spec fn is_split(cs: Seq<ChunkId>, tid: [u8; 16], total: nat, size: nat) -> bool {
    &&& tiles(cs, tid, total)
    &&& forall|k: int| 0 <= k < cs.len() - 1 ==> (#[trigger] cs[k]).end - cs[k].start == size
    &&& cs.len() > 0 ==> cs.last().end - cs.last().start <= size
}

/// Splits `[0, total_len)` into chunks of `chunk_size` bytes (0 selects the
/// default size); the last chunk may be shorter.
pub fn split_into_chunks(transfer_id: [u8; 16], total_len: u64, chunk_size: u64) -> (r: Vec<ChunkId>)
    ensures
        is_split(r@, transfer_id, total_len as nat, effective_size(chunk_size)),
{
    let size: u64 = if chunk_size == 0 {
        DEFAULT_CHUNK_SIZE
    } else {
        chunk_size
    };
    let mut out: Vec<ChunkId> = Vec::new();
    let mut start: u64 = 0;
    while start < total_len
        invariant
            size == effective_size(chunk_size),
            size > 0,
            start <= total_len,
            out@.len() == 0 ==> start == 0,
            out@.len() > 0 ==> out@[0].start == 0 && out@.last().end == start,
            forall|k: int|
                0 <= k < out@.len() ==> (#[trigger] out@[k]).transfer_id == transfer_id
                    && out@[k].start < out@[k].end && out@[k].end <= start,
            forall|k: int| 0 <= k < out@.len() - 1 ==> (#[trigger] out@[k]).end == out@[k + 1].start,
            forall|k: int| 0 <= k < out@.len() - 1 ==> (#[trigger] out@[k]).end - out@[k].start == size,
            forall|k: int| 0 <= k < out@.len() ==> (#[trigger] out@[k]).end - out@[k].start <= size,
            out@.len() > 0 && out@.last().end - out@.last().start < size ==> start == total_len,
        decreases total_len - start,
    {
        let end: u64 = if total_len - start <= size {
            total_len
        } else {
            start + size
        };
        let ghost before = out@;
        out.push(ChunkId { transfer_id, start, end });
        proof {
            assert(forall|k: int| 0 <= k < before.len() ==> out@[k] == before[k]);
        }
        start = end;
    }
    out
}

/// What a stored payload contributes to the reassembled stream.
pub open spec fn payload_or_empty(o: Option<Seq<u8>>) -> Seq<u8> {
    match o {
        Some(p) => p,
        None => Seq::empty(),
    }
}

/// Concatenation of the stored payloads, in chunk order.
pub open spec fn assembled(st: Seq<Option<Seq<u8>>>) -> Seq<u8>
    decreases st.len(),
{
    if st.len() == 0 {
        Seq::empty()
    } else {
        assembled(st.drop_last()) + payload_or_empty(st.last())
    }
}

/// The ids of the chunks whose flag is set, in chunk order.
pub open spec fn flagged(cs: Seq<ChunkId>, flags: Seq<bool>) -> Seq<ChunkId>
    decreases cs.len(),
{
    if cs.len() == 0 {
        Seq::empty()
    } else if flags.len() >= cs.len() && flags[cs.len() - 1] {
        flagged(cs.drop_last(), flags).push(cs.last())
    } else {
        flagged(cs.drop_last(), flags)
    }
}

/// Index of chunk `id` in `cs`, or -1.
pub open spec fn index_of(cs: Seq<ChunkId>, id: ChunkId) -> int {
    if exists|k: int| 0 <= k < cs.len() && cs[k] == id {
        choose|k: int| 0 <= k < cs.len() && cs[k] == id
    } else {
        -1
    }
}

/// In a tiling, earlier chunks end no later than later ones start.
pub proof fn lemma_tiles_ordered(cs: Seq<ChunkId>, tid: [u8; 16], total: nat)
    requires
        tiles(cs, tid, total),
    ensures
        forall|i: int, j: int| 0 <= i < j < cs.len() ==> cs[i].end <= cs[j].start,
{
    assert forall|i: int, j: int| 0 <= i < j < cs.len() implies cs[i].end <= cs[j].start by {
        lemma_tiles_ordered_from(cs, tid, total, i, j);
    }
}

proof fn lemma_tiles_ordered_from(cs: Seq<ChunkId>, tid: [u8; 16], total: nat, i: int, j: int)
    requires
        tiles(cs, tid, total),
        0 <= i < j < cs.len(),
    ensures
        cs[i].end <= cs[j].start,
    decreases j - i,
{
    assert(cs[j - 1].end == cs[j].start);
    if i < j - 1 {
        lemma_tiles_ordered_from(cs, tid, total, i, j - 1);
    }
}

/// In a tiling, a chunk occurs at one index only.
pub proof fn lemma_index_unique(cs: Seq<ChunkId>, tid: [u8; 16], total: nat, k: int)
    requires
        tiles(cs, tid, total),
        0 <= k < cs.len(),
    ensures
        index_of(cs, cs[k]) == k,
{
    lemma_tiles_ordered(cs, tid, total);
    let j = index_of(cs, cs[k]);
    assert(cs[j] == cs[k]);
    if j < k {
        assert(cs[j].end <= cs[k].start);
    } else if k < j {
        assert(cs[k].end <= cs[j].start);
    }
}

/// Abstract state of a transfer.
pub struct TransferView {
    pub transfer_id: [u8; 16],
    pub total_length: u64,
    pub chunks: Seq<ChunkId>,
    pub stored: Seq<Option<Seq<u8>>>,
    pub flying: Seq<bool>,
}

/// Per-transfer state: which chunks are in flight and which were received.
pub struct TransferState {
    transfer_id: [u8; 16],
    total_length: u64,
    chunk_ids: Vec<ChunkId>,
    /// Verified payload of each chunk, by position.
    received: Vec<Option<Vec<u8>>>,
    /// Whether each chunk is requested and not yet received or failed.
    in_flight: Vec<bool>,
}

pub open spec fn stored_view(v: Seq<Option<Vec<u8>>>) -> Seq<Option<Seq<u8>>> {
    Seq::new(v.len(), |k: int| match v[k] { Some(p) => Some(p@), None => None })
}

impl View for TransferState {
    type V = TransferView;

    closed spec fn view(&self) -> TransferView {
        TransferView {
            transfer_id: self.transfer_id,
            total_length: self.total_length,
            chunks: self.chunk_ids@,
            stored: stored_view(self.received@),
            flying: self.in_flight@,
        }
    }
}

impl TransferView {
    /// Well-formedness: the chunks tile the transfer, and no received chunk
    /// is in flight.
    pub open spec fn wf(self) -> bool {
        &&& tiles(self.chunks, self.transfer_id, self.total_length as nat)
        &&& self.stored.len() == self.chunks.len()
        &&& self.flying.len() == self.chunks.len()
        &&& forall|k: int|
            0 <= k < self.chunks.len() && (#[trigger] self.stored[k]) is Some ==> !self.flying[k]
    }

    /// Every stored payload has its chunk's length.
    pub open spec fn sized(self) -> bool {
        forall|k: int|
            0 <= k < self.chunks.len() && (#[trigger] self.stored[k]) is Some ==> self.stored[k]->0.len()
                == self.chunks[k].end - self.chunks[k].start
    }

    pub open spec fn complete(self) -> bool {
        forall|k: int| 0 <= k < self.stored.len() ==> (#[trigger] self.stored[k]) is Some
    }

    pub open spec fn index(self, id: ChunkId) -> int {
        index_of(self.chunks, id)
    }
}

impl TransferState {
    /// State of a new transfer whose chunks are `chunk_ids`: nothing received
    /// and nothing in flight.
    pub fn new(transfer_id: [u8; 16], total_length: u64, chunk_ids: Vec<ChunkId>) -> (r: Self)
        requires
            tiles(chunk_ids@, transfer_id, total_length as nat),
        ensures
            r@.wf(),
            r@.transfer_id == transfer_id,
            r@.total_length == total_length,
            r@.chunks == chunk_ids@,
            forall|k: int| 0 <= k < r@.chunks.len() ==> (#[trigger] r@.stored[k]) is None,
            forall|k: int| 0 <= k < r@.chunks.len() ==> !(#[trigger] r@.flying[k]),
    {
        let n = chunk_ids.len();
        let mut received: Vec<Option<Vec<u8>>> = Vec::new();
        let mut in_flight: Vec<bool> = Vec::new();
        let mut i: usize = 0;
        while i < n
            invariant
                0 <= i <= n,
                received@.len() == i,
                in_flight@.len() == i,
                forall|k: int| 0 <= k < i ==> (#[trigger] received@[k]) is None,
                forall|k: int| 0 <= k < i ==> !(#[trigger] in_flight@[k]),
            decreases n - i,
        {
            received.push(None);
            in_flight.push(false);
            i = i + 1;
        }
        TransferState { transfer_id, total_length, chunk_ids, received, in_flight }
    }

    /// Position of chunk `id` in the transfer's chunk sequence.
    pub fn position(&self, id: &ChunkId) -> (r: Option<usize>)
        requires
            self@.wf(),
        ensures
            r matches Some(k) ==> k < self@.chunks.len() && self@.index(*id) == k,
            r is None ==> self@.index(*id) == -1,
    {
        let mut i: usize = 0;
        while i < self.chunk_ids.len()
            invariant
                self@.wf(),
                0 <= i <= self@.chunks.len(),
                forall|k: int| 0 <= k < i ==> self@.chunks[k] != *id,
            decreases self@.chunks.len() - i,
        {
            if self.chunk_ids[i] == *id {
                proof {
                    lemma_index_unique(self@.chunks, self.transfer_id, self.total_length as nat, i as int);
                }
                return Some(i);
            }
            i = i + 1;
        }
        None
    }

    /// Marks a chunk as requested. A chunk that is not part of the transfer,
    /// or that was already received, is left as it is.
    pub fn mark_in_flight(&mut self, chunk_id: ChunkId)
        requires
            old(self)@.wf(),
        ensures
            final(self)@.wf(),
            final(self)@ == (TransferView {
                flying: if old(self)@.index(chunk_id) >= 0
                    && old(self)@.stored[old(self)@.index(chunk_id)] is None {
                    old(self)@.flying.update(old(self)@.index(chunk_id), true)
                } else {
                    old(self)@.flying
                },
                ..old(self)@
            }),
    {
        match self.position(&chunk_id) {
            Some(k) => {
                if self.received[k].is_none() {
                    self.in_flight.set(k, true);
                }
            },
            None => {},
        }
        proof {
            assert(stored_view(self.received@) =~= old(self)@.stored);
        }
    }

    /// Takes a chunk out of flight so that it may be reassigned.
    pub fn mark_failed(&mut self, chunk_id: ChunkId)
        requires
            old(self)@.wf(),
        ensures
            final(self)@.wf(),
            final(self)@ == (TransferView {
                flying: if old(self)@.index(chunk_id) >= 0 {
                    old(self)@.flying.update(old(self)@.index(chunk_id), false)
                } else {
                    old(self)@.flying
                },
                ..old(self)@
            }),
    {
        match self.position(&chunk_id) {
            Some(k) => {
                self.in_flight.set(k, false);
            },
            None => {},
        }
        proof {
            assert(stored_view(self.received@) =~= old(self)@.stored);
        }
    }
}

impl TransferState {
    /// Stores a verified payload and takes the chunk out of flight. A chunk
    /// that is not part of the transfer is ignored. Returns whether every
    /// chunk is now received.
    pub fn mark_received(&mut self, chunk_id: ChunkId, payload: Vec<u8>) -> (r: bool)
        requires
            old(self)@.wf(),
        ensures
            final(self)@.wf(),
            final(self)@ == (if old(self)@.index(chunk_id) >= 0 {
                TransferView {
                    stored: old(self)@.stored.update(old(self)@.index(chunk_id), Some(payload@)),
                    flying: old(self)@.flying.update(old(self)@.index(chunk_id), false),
                    ..old(self)@
                }
            } else {
                old(self)@
            }),
            r == final(self)@.complete(),
    {
        match self.position(&chunk_id) {
            Some(k) => {
                let ghost pv = payload@;
                self.received.set(k, Some(payload));
                self.in_flight.set(k, false);
                proof {
                    assert(stored_view(self.received@) =~= old(self)@.stored.update(k as int, Some(pv)));
                }
            },
            None => {},
        }
        proof {
            if !(old(self)@.index(chunk_id) >= 0) {
                assert(stored_view(self.received@) =~= old(self)@.stored);
            }
        }
        self.is_complete()
    }

    /// Whether every chunk of the transfer was received.
    pub fn is_complete(&self) -> (r: bool)
        requires
            self@.wf(),
        ensures
            r == self@.complete(),
    {
        let mut i: usize = 0;
        while i < self.received.len()
            invariant
                self@.wf(),
                0 <= i <= self@.stored.len(),
                forall|k: int| 0 <= k < i ==> (#[trigger] self@.stored[k]) is Some,
            decreases self@.stored.len() - i,
        {
            if self.received[i].is_none() {
                assert(self@.stored[i as int] is None);
                return false;
            }
            i = i + 1;
        }
        true
    }

    /// Whether chunk `chunk_id` was received.
    pub fn is_received(&self, chunk_id: &ChunkId) -> (r: bool)
        requires
            self@.wf(),
        ensures
            r == (self@.index(*chunk_id) >= 0 && self@.stored[self@.index(*chunk_id)] is Some),
    {
        match self.position(chunk_id) {
            Some(k) => self.received[k].is_some(),
            None => false,
        }
    }

    /// The received payloads concatenated in chunk order. Once the transfer
    /// is complete this is the whole byte stream, `total_length` bytes long.
    pub fn reassemble_into_bytes(&self) -> (r: Vec<u8>)
        requires
            self@.wf(),
        ensures
            r@ == assembled(self@.stored),
            self@.complete() && self@.sized() ==> r@.len() == self@.total_length,
    {
        let mut out: Vec<u8> = Vec::new();
        let mut i: usize = 0;
        while i < self.received.len()
            invariant
                self@.wf(),
                0 <= i <= self@.stored.len(),
                out@ == assembled(self@.stored.subrange(0, i as int)),
            decreases self@.stored.len() - i,
        {
            proof {
                let st = self@.stored.subrange(0, i as int + 1);
                assert(st.drop_last() =~= self@.stored.subrange(0, i as int));
            }
            match &self.received[i] {
                Some(p) => append_bytes(&mut out, p.as_slice()),
                None => {},
            }
            i = i + 1;
        }
        proof {
            assert(self@.stored.subrange(0, self@.stored.len() as int) =~= self@.stored);
            if self@.complete() && self@.sized() {
                lemma_assembled_len(self@.chunks, self.transfer_id, self.total_length as nat, self@.stored);
            }
        }
        out
    }

    /// The transfer's id.
    pub fn transfer_id(&self) -> (r: [u8; 16])
        ensures
            r == self@.transfer_id,
    {
        self.transfer_id
    }

    /// The transfer's length in bytes.
    pub fn total_length(&self) -> (r: u64)
        ensures
            r == self@.total_length,
    {
        self.total_length
    }

    /// The transfer's chunks, in order.
    pub fn chunk_ids(&self) -> (r: &[ChunkId])
        ensures
            r@ == self@.chunks,
    {
        self.chunk_ids.as_slice()
    }

    /// The chunks currently in flight, in chunk order.
    pub fn in_flight(&self) -> (r: Vec<ChunkId>)
        requires
            self@.wf(),
        ensures
            r@ == flagged(self@.chunks, self@.flying),
    {
        let mut out: Vec<ChunkId> = Vec::new();
        let mut i: usize = 0;
        while i < self.chunk_ids.len()
            invariant
                self@.wf(),
                0 <= i <= self@.chunks.len(),
                out@ == flagged(self@.chunks.subrange(0, i as int), self@.flying),
            decreases self@.chunks.len() - i,
        {
            proof {
                let cs = self@.chunks.subrange(0, i as int + 1);
                assert(cs.drop_last() =~= self@.chunks.subrange(0, i as int));
            }
            if self.in_flight[i] {
                out.push(self.chunk_ids[i]);
            }
            i = i + 1;
        }
        proof {
            assert(self@.chunks.subrange(0, self@.chunks.len() as int) =~= self@.chunks);
        }
        out
    }
}

/// With every chunk of a tiling stored at its range's length, the stored
/// payloads add up to the transfer's length.
pub proof fn lemma_assembled_len(cs: Seq<ChunkId>, tid: [u8; 16], total: nat, st: Seq<Option<Seq<u8>>>)
    requires
        tiles(cs, tid, total),
        st.len() == cs.len(),
        forall|k: int| 0 <= k < st.len() ==> (#[trigger] st[k]) is Some,
        forall|k: int| 0 <= k < st.len() && (#[trigger] st[k]) is Some ==> st[k]->0.len() == cs[k].end - cs[k].start,
    ensures
        assembled(st).len() == total,
{
    if cs.len() > 0 {
        lemma_assembled_prefix_len(cs, tid, total, st, cs.len() as int);
        assert(st.subrange(0, st.len() as int) =~= st);
    }
}

proof fn lemma_assembled_prefix_len(cs: Seq<ChunkId>, tid: [u8; 16], total: nat, st: Seq<Option<Seq<u8>>>, n: int)
    requires
        tiles(cs, tid, total),
        st.len() == cs.len(),
        0 < n <= cs.len(),
        forall|k: int| 0 <= k < st.len() ==> (#[trigger] st[k]) is Some,
        forall|k: int| 0 <= k < st.len() && (#[trigger] st[k]) is Some ==> st[k]->0.len() == cs[k].end - cs[k].start,
    ensures
        assembled(st.subrange(0, n)).len() == cs[n - 1].end,
    decreases n,
{
    let pre = st.subrange(0, n);
    assert(pre.drop_last() =~= st.subrange(0, n - 1));
    assert(pre.last() == st[n - 1]);
    assert(st[n - 1] is Some);
    assert(payload_or_empty(st[n - 1]).len() == cs[n - 1].end - cs[n - 1].start);
    assert(assembled(pre) == assembled(st.subrange(0, n - 1)) + payload_or_empty(st[n - 1]));
    if n > 1 {
        lemma_assembled_prefix_len(cs, tid, total, st, n - 1);
        assert(cs[n - 2].end == cs[n - 1].start);
    } else {
        assert(st.subrange(0, 0) =~= Seq::<Option<Seq<u8>>>::empty());
    }
}

/// Builds the `ChunkRequest` message that asks a peer for a chunk.
pub fn chunk_request_message(chunk_id: ChunkId) -> (r: Message)
    ensures
        r == (Message::ChunkRequest {
            transfer_id: chunk_id.transfer_id,
            start: chunk_id.start,
            end: chunk_id.end,
        }),
{
    Message::ChunkRequest { transfer_id: chunk_id.transfer_id, start: chunk_id.start, end: chunk_id.end }
}

/// Outcome of a chunk delivery.
pub enum ChunkReceiveResult {
    /// Chunk stored; the transfer is now complete and these are its bytes.
    Complete(Vec<u8>),
    /// Chunk stored (or, for a range that is none of the transfer's chunks,
    /// ignored); the transfer is not complete yet.
    InProgress,
    /// The delivery was rejected: wrong transfer or digest mismatch.
    IntegrityFailed,
    /// The chunk was already received with different content: the transfer
    /// is poisoned and must fail.
    Poisoned,
}

/// A delivery that is stored: its digest matches and its range is one of
/// the transfer's chunks.
pub open spec fn admissible(v: TransferView, id: ChunkId, hash: Seq<u8>, payload: Seq<u8>) -> bool {
    &&& id.transfer_id == v.transfer_id
    &&& sha256_of(payload) == hash
    &&& v.index(id) >= 0
}

/// A delivery for the transfer whose digest does not match.
pub open spec fn rejected(v: TransferView, id: ChunkId, hash: Seq<u8>, payload: Seq<u8>) -> bool {
    &&& id.transfer_id == v.transfer_id
    &&& sha256_of(payload) != hash
}

/// A verified delivery for the transfer whose range is none of its chunks:
/// nothing is stored for it.
pub open spec fn unplanned(v: TransferView, id: ChunkId, hash: Seq<u8>, payload: Seq<u8>) -> bool {
    &&& id.transfer_id == v.transfer_id
    &&& sha256_of(payload) == hash
    &&& v.index(id) < 0
}

/// Handles a delivered chunk: verifies it against its digest and stores it.
/// A verified payload for a range that is none of the transfer's chunks is
/// not stored and leaves the state as it is. The reassembled bytes have the
/// transfer's length when every payload has its chunk's length.
pub fn on_chunk_data_received(
    state: &mut TransferState,
    transfer_id: [u8; 16],
    start: u64,
    end: u64,
    hash: [u8; 32],
    payload: Vec<u8>,
) -> (r: ChunkReceiveResult)
    requires
        old(state)@.wf(),
    ensures
        final(state)@.wf(),
        ({
            let id = ChunkId { transfer_id, start, end };
            let k = old(state)@.index(id);
            let old_v = old(state)@;
            let new_v = final(state)@;
            &&& transfer_id != old_v.transfer_id ==> r is IntegrityFailed && new_v == old_v
            &&& unplanned(old_v, id, hash@, payload@) ==> {
                &&& new_v == old_v
                &&& old_v.complete() ==> (r matches ChunkReceiveResult::Complete(b) && b@ == assembled(
                    old_v.stored,
                ) && (old_v.sized() ==> b@.len() == old_v.total_length))
                &&& !old_v.complete() ==> r is InProgress
            }
            &&& rejected(old_v, id, hash@, payload@) ==> {
                &&& r is IntegrityFailed
                &&& new_v == (TransferView {
                    flying: if k >= 0 {
                        old_v.flying.update(k, false)
                    } else {
                        old_v.flying
                    },
                    ..old_v
                })
            }
            &&& admissible(old_v, id, hash@, payload@) && old_v.stored[k] is Some
                && old_v.stored[k]->0 != payload@ ==> r is Poisoned && new_v == old_v
            &&& admissible(old_v, id, hash@, payload@) && old_v.stored[k] == Some(payload@) ==> new_v
                == old_v
            &&& admissible(old_v, id, hash@, payload@) && !(old_v.stored[k] is Some
                && old_v.stored[k]->0 != payload@) ==> {
                &&& new_v == (TransferView {
                    stored: old_v.stored.update(k, Some(payload@)),
                    flying: old_v.flying.update(k, false),
                    ..old_v
                })
                &&& new_v.complete() ==> (r matches ChunkReceiveResult::Complete(b) && b@ == assembled(
                    new_v.stored,
                ) && (new_v.sized() ==> b@.len() == new_v.total_length))
                &&& !new_v.complete() ==> r is InProgress
            }
        }),
{
    if !bytes_equal(state.transfer_id.as_slice(), transfer_id.as_slice()) {
        proof {
            if transfer_id == state.transfer_id {
                assert(state.transfer_id@ == transfer_id@);
            }
        }
        return ChunkReceiveResult::IntegrityFailed;
    }
    proof {
        assert(state.transfer_id =~= transfer_id);
    }
    let id = ChunkId { transfer_id, start, end };
    let verified = verify_chunk(payload.as_slice(), &hash);
    let k = match state.position(&id) {
        Some(k) => k,
        None => {
            if verified {
                if state.is_complete() {
                    return ChunkReceiveResult::Complete(state.reassemble_into_bytes());
                }
                return ChunkReceiveResult::InProgress;
            } else {
                return ChunkReceiveResult::IntegrityFailed;
            }
        },
    };
    if !verified {
        state.mark_failed(id);
        return ChunkReceiveResult::IntegrityFailed;
    }
    match &state.received[k] {
        Some(p) => {
            if !bytes_equal(p.as_slice(), payload.as_slice()) {
                return ChunkReceiveResult::Poisoned;
            }
        },
        None => {},
    }
    let ghost before = state@;
    let complete = state.mark_received(id, payload);
    proof {
        if before.stored[k as int] is Some {
            assert(before.stored.update(k as int, before.stored[k as int]) =~= before.stored);
            assert(before.flying.update(k as int, false) =~= before.flying);
        }
    }
    if complete {
        ChunkReceiveResult::Complete(state.reassemble_into_bytes())
    } else {
        ChunkReceiveResult::InProgress
    }
}

/// Receiving every chunk of a transfer once, each with the matching slice of
/// `data`, reassembles exactly `data`.
pub proof fn lemma_reassembly_round_trip(cs: Seq<ChunkId>, tid: [u8; 16], data: Seq<u8>)
    requires
        tiles(cs, tid, data.len()),
    ensures
        assembled(
            Seq::new(cs.len(), |k: int| Some(data.subrange(cs[k].start as int, cs[k].end as int))),
        ) == data,
{
    let st = Seq::new(cs.len(), |k: int| Some(data.subrange(cs[k].start as int, cs[k].end as int)));
    if cs.len() > 0 {
        lemma_round_trip_prefix(cs, tid, data, st, cs.len() as int);
        assert(st.subrange(0, st.len() as int) =~= st);
        assert(data.subrange(0, data.len() as int) =~= data);
    } else {
        assert(data =~= Seq::<u8>::empty());
    }
}

proof fn lemma_round_trip_prefix(cs: Seq<ChunkId>, tid: [u8; 16], data: Seq<u8>, st: Seq<Option<Seq<u8>>>, n: int)
    requires
        tiles(cs, tid, data.len()),
        st == Seq::new(cs.len(), |k: int| Some(data.subrange(cs[k].start as int, cs[k].end as int))),
        0 < n <= cs.len(),
    ensures
        assembled(st.subrange(0, n)) == data.subrange(0, cs[n - 1].end as int),
    decreases n,
{
    let pre = st.subrange(0, n);
    assert(pre.drop_last() =~= st.subrange(0, n - 1));
    assert(pre.last() == st[n - 1]);
    assert(assembled(pre) == assembled(st.subrange(0, n - 1)) + payload_or_empty(st[n - 1]));
    let a = cs[n - 1].start as int;
    let b = cs[n - 1].end as int;
    if n > 1 {
        lemma_round_trip_prefix(cs, tid, data, st, n - 1);
        assert(cs[n - 2].end == cs[n - 1].start);
    } else {
        assert(st.subrange(0, 0) =~= Seq::<Option<Seq<u8>>>::empty());
        assert(data.subrange(0, 0) =~= Seq::<u8>::empty());
    }
    assert(data.subrange(0, a) + data.subrange(a, b) =~= data.subrange(0, b));
}

impl TransferState {
    /// Marks every chunk not yet received as in flight.
    pub fn mark_all_in_flight(&mut self)
        requires
            old(self)@.wf(),
        ensures
            final(self)@.wf(),
            final(self)@ == (TransferView {
                flying: Seq::new(old(self)@.chunks.len(), |k: int| old(self)@.stored[k] is None),
                ..old(self)@
            }),
    {
        let mut i: usize = 0;
        while i < self.in_flight.len()
            invariant
                self@.wf(),
                0 <= i <= self@.flying.len(),
                self@.chunks == old(self)@.chunks,
                self@.stored == old(self)@.stored,
                self.transfer_id == old(self).transfer_id,
                self.total_length == old(self).total_length,
                forall|k: int| 0 <= k < i ==> self@.flying[k] == (self@.stored[k] is None),
                forall|k: int| i <= k < self@.flying.len() ==> self@.flying[k] == old(self)@.flying[k],
            decreases self@.flying.len() - i,
        {
            let unreceived = self.received[i].is_none();
            self.in_flight.set(i, unreceived);
            proof {
                assert(stored_view(self.received@) == old(self)@.stored);
            }
            i = i + 1;
        }
        proof {
            assert(self@.flying =~= Seq::new(old(self)@.chunks.len(), |k: int| old(self)@.stored[k] is None));
        }
    }
}

/// A payload whose digest is not the announced one is never stored: it is
/// not admissible, whatever the transfer's state.
pub proof fn lemma_integrity_soundness(v: TransferView, id: ChunkId, hash: Seq<u8>, payload: Seq<u8>)
    requires
        sha256_of(payload) != hash,
    ensures
        !admissible(v, id, hash, payload),
{
}

} // verus!
