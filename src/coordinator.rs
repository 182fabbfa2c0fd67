//! Coordinator: the host-driven state machine. The host hands it events
//! (requests, chunk data, messages, peer changes, ticks) and performs the
//! actions it returns.

use vstd::prelude::*;
use vstd::string::StringSliceAdditionalSpecFns;
use crate::chunk::{
    admissible, assembled, chunk_request_message, lemma_index_unique, on_chunk_data_received, rejected,
    unplanned,
    split_into_chunks, ChunkId, ChunkReceiveResult, TransferState, TransferView, DEFAULT_CHUNK_SIZE,
};
use crate::bytes::bytes_equal;
use crate::identity::{DeviceId, Keypair, PublicKey};
use crate::integrity::{hash_chunk, PeerTrustTracker, DEFAULT_MAX_INTEGRITY_FAILURES};
use crate::protocol::{Message, PROTOCOL_VERSION};
use crate::scheduler::{
    assign_chunks_to_peers, assign_chunks_with_metrics, chunks_of, effective_workers, eligible_workers, entries_of,
    lemma_eligible_workers, reassign_after_peer_left, round_robin, PeerMetrics, assigned_to,
    assigned_worker,
};

verus! {

/// Ticks without a heartbeat after which a peer is considered gone.
pub const HEARTBEAT_TIMEOUT_TICKS: u64 = 5;

/// Ticks after which an unanswered chunk request times out.
pub const DEFAULT_CHUNK_TIMEOUT_TICKS: u64 = 30;

/// Default local transport port, advertised in discovery responses.
pub const DEFAULT_TRANSPORT_PORT: u16 = 45679;

/// Tunable limits of a coordinator.
#[derive(Debug, Clone, Copy)]
pub struct Thresholds {
    /// A peer unheard of for more ticks than this is evicted.
    pub heartbeat_timeout_ticks: u64,
    /// A chunk request older than this many ticks times out.
    pub chunk_timeout_ticks: u64,
    /// Integrity failures after which a peer is isolated.
    pub isolation_threshold: u32,
    /// Port advertised in discovery responses.
    pub listen_port: u16,
}

/// The default limits.
pub open spec fn default_thresholds() -> Thresholds {
    Thresholds {
        heartbeat_timeout_ticks: HEARTBEAT_TIMEOUT_TICKS,
        chunk_timeout_ticks: DEFAULT_CHUNK_TIMEOUT_TICKS,
        isolation_threshold: DEFAULT_MAX_INTEGRITY_FAILURES,
        listen_port: DEFAULT_TRANSPORT_PORT,
    }
}

impl Thresholds {
    /// The default limits.
    pub fn new() -> (r: Thresholds)
        ensures
            r == default_thresholds(),
    {
        Thresholds {
            heartbeat_timeout_ticks: HEARTBEAT_TIMEOUT_TICKS,
            chunk_timeout_ticks: DEFAULT_CHUNK_TIMEOUT_TICKS,
            isolation_threshold: DEFAULT_MAX_INTEGRITY_FAILURES,
            listen_port: DEFAULT_TRANSPORT_PORT,
        }
    }
}

/// A known peer.
#[derive(Debug, Clone, Copy)]
pub struct PeerEntry {
    pub device_id: DeviceId,
    pub public_key: PublicKey,
    /// Tick at which the peer was last heard of.
    pub last_seen: u64,
    pub metrics: PeerMetrics,
}

/// The transfer being accelerated.
struct ActiveTransfer {
    state: TransferState,
    /// Which worker fetches each chunk.
    assignment: Vec<(ChunkId, DeviceId)>,
    /// Tick at which each chunk (by position) was last requested.
    request_ticks: Vec<Option<u64>>,
}

/// Answer to an incoming request.
pub enum Action {
    /// Accelerate through the pod: the transfer's id, length and chunk plan.
    Accelerate { transfer_id: [u8; 16], total_length: u64, assignment: Vec<(ChunkId, DeviceId)> },
    /// Fetch directly, without the pod.
    Fallback,
}

/// Something the host must do.
pub enum OutboundAction {
    /// Send a message to a peer.
    SendMessage(DeviceId, Message),
    /// Fetch `[start, end)` of a transfer from the WAN on behalf of `peer`
    /// (the local device itself when `peer` is its own id).
    WanFetch { peer: DeviceId, transfer_id: [u8; 16], start: u64, end: u64 },
    /// A transfer completed with these bytes.
    TransferComplete([u8; 16], Vec<u8>),
}

/// Error of a chunk delivery.
#[derive(Debug, Clone, Copy, PartialEq, Eq, Structural)]
pub enum ChunkError {
    /// No active transfer has this id.
    UnknownTransfer,
    /// The chunk failed verification.
    IntegrityFailed,
}

/// Error of an incoming frame; the host should close the connection.
#[derive(Debug, Clone, Copy, PartialEq, Eq, Structural)]
pub enum MessageError {
    /// The frame is malformed.
    DecodeError,
    /// The frame announces more than the 16 MiB cap.
    FrameTooLarge,
}

/// The device ids of a peer table, in order.
pub open spec fn ids_of(ps: Seq<PeerEntry>) -> Seq<DeviceId> {
    Seq::new(ps.len(), |i: int| ps[i].device_id)
}

/// The action that asks worker `d` for chunk `c`: a WAN fetch when `d` is the
/// local device, a `ChunkRequest` message otherwise.
pub open spec fn request_action(self_id: DeviceId, c: ChunkId, d: DeviceId) -> OutboundAction {
    if d == self_id {
        OutboundAction::WanFetch { peer: self_id, transfer_id: c.transfer_id, start: c.start, end: c.end }
    } else {
        OutboundAction::SendMessage(
            d,
            Message::ChunkRequest { transfer_id: c.transfer_id, start: c.start, end: c.end },
        )
    }
}

pub open spec fn request_actions(self_id: DeviceId, a: Seq<(ChunkId, DeviceId)>) -> Seq<OutboundAction> {
    Seq::new(a.len(), |i: int| request_action(self_id, a[i].0, a[i].1))
}

/// The entries of an assignment that do not give a chunk to `peer`.
pub open spec fn entries_not_of(a: Seq<(ChunkId, DeviceId)>, peer: DeviceId) -> Seq<(ChunkId, DeviceId)>
    decreases a.len(),
{
    if a.len() == 0 {
        Seq::empty()
    } else if a.last().1 != peer {
        entries_not_of(a.drop_last(), peer).push(a.last())
    } else {
        entries_not_of(a.drop_last(), peer)
    }
}

/// A peer table without `peer`.
pub open spec fn without_peer(ps: Seq<PeerEntry>, peer: DeviceId) -> Seq<PeerEntry>
    decreases ps.len(),
{
    if ps.len() == 0 {
        Seq::empty()
    } else if ps.last().device_id != peer {
        without_peer(ps.drop_last(), peer).push(ps.last())
    } else {
        without_peer(ps.drop_last(), peer)
    }
}

/// Every entry of `a` names one of `ws` and one of the chunks `cs`.
pub open spec fn assigned_within(a: Seq<(ChunkId, DeviceId)>, ws: Seq<DeviceId>, cs: Seq<ChunkId>) -> bool {
    forall|i: int| 0 <= i < a.len() ==> ws.contains((#[trigger] a[i]).1) && cs.contains(a[i].0)
}

proof fn lemma_entries_of(a: Seq<(ChunkId, DeviceId)>, peer: DeviceId)
    ensures
        forall|i: int|
            0 <= i < entries_of(a, peer).len() ==> a.contains(#[trigger] entries_of(a, peer)[i])
                && entries_of(a, peer)[i].1 == peer,
        forall|i: int|
            0 <= i < entries_not_of(a, peer).len() ==> a.contains(#[trigger] entries_not_of(a, peer)[i])
                && entries_not_of(a, peer)[i].1 != peer,
    decreases a.len(),
{
    if a.len() > 0 {
        lemma_entries_of(a.drop_last(), peer);
        let d = a.drop_last();
        assert forall|i: int| 0 <= i < entries_of(a, peer).len() implies a.contains(
            #[trigger] entries_of(a, peer)[i],
        ) && entries_of(a, peer)[i].1 == peer by {
            if i < entries_of(d, peer).len() {
                let j = choose|j: int| 0 <= j < d.len() && d[j] == entries_of(d, peer)[i];
                assert(a[j] == d[j]);
            } else {
                assert(a[a.len() - 1] == entries_of(a, peer)[i]);
            }
        }
        assert forall|i: int| 0 <= i < entries_not_of(a, peer).len() implies a.contains(
            #[trigger] entries_not_of(a, peer)[i],
        ) && entries_not_of(a, peer)[i].1 != peer by {
            if i < entries_not_of(d, peer).len() {
                let j = choose|j: int| 0 <= j < d.len() && d[j] == entries_not_of(d, peer)[i];
                assert(a[j] == d[j]);
            } else {
                assert(a[a.len() - 1] == entries_not_of(a, peer)[i]);
            }
        }
    }
}

proof fn lemma_without_peer(ps: Seq<PeerEntry>, peer: DeviceId)
    ensures
        forall|i: int|
            0 <= i < without_peer(ps, peer).len() ==> ps.contains(#[trigger] without_peer(ps, peer)[i])
                && without_peer(ps, peer)[i].device_id != peer,
        forall|i: int|
            0 <= i < ps.len() && (#[trigger] ps[i]).device_id != peer ==> without_peer(ps, peer).contains(ps[i]),
    decreases ps.len(),
{
    if ps.len() > 0 {
        lemma_without_peer(ps.drop_last(), peer);
        let d = ps.drop_last();
        let w = without_peer(ps, peer);
        let wd = without_peer(d, peer);
        assert forall|i: int| 0 <= i < w.len() implies ps.contains(#[trigger] w[i]) && w[i].device_id != peer by {
            if i < wd.len() {
                assert(w[i] == wd[i]);
                let j = choose|j: int| 0 <= j < d.len() && d[j] == wd[i];
                assert(ps[j] == d[j]);
            } else {
                assert(ps[ps.len() - 1] == w[i]);
            }
        }
        assert forall|i: int| 0 <= i < ps.len() && (#[trigger] ps[i]).device_id != peer implies w.contains(ps[i]) by {
            if i < d.len() {
                assert(d[i] == ps[i]);
                let j = choose|j: int| 0 <= j < wd.len() && wd[j] == d[i];
                assert(w[j] == wd[j]);
            } else {
                assert(w[w.len() - 1] == ps[i]);
            }
        }
    }
}

/// The coordinator. It owns all state of the engine.
pub struct PeaPodCore {
    keypair: Keypair,
    thresholds: Thresholds,
    /// Known peers, in order of arrival, one entry per device.
    peers: Vec<PeerEntry>,
    /// Peers that reached the isolation threshold.
    isolated: Vec<DeviceId>,
    trust: PeerTrustTracker,
    tick_count: u64,
    active_transfer: Option<ActiveTransfer>,
    active_upload: Option<ActiveUpload>,
}

impl PeaPodCore {
    /// `other` is this coordinator with, at most, another peer table.
    pub closed spec fn differs_in_peers_only(&self, other: PeaPodCore) -> bool {
        other == (PeaPodCore { peers: other.peers, ..*self })
    }

    pub closed spec fn self_id(&self) -> DeviceId {
        self.keypair.device_id_spec()
    }

    pub closed spec fn thresholds_spec(&self) -> Thresholds {
        self.thresholds
    }

    pub closed spec fn peer_table(&self) -> Seq<PeerEntry> {
        self.peers@
    }

    pub open spec fn peer_ids(&self) -> Seq<DeviceId> {
        ids_of(self.peer_table())
    }

    /// Workers of a scheduling round: the local device, then the peers.
    pub open spec fn workers(&self) -> Seq<DeviceId> {
        seq![self.self_id()] + self.peer_ids()
    }

    pub closed spec fn isolated_ids(&self) -> Seq<DeviceId> {
        self.isolated@
    }

    pub closed spec fn integrity_failures(&self, p: DeviceId) -> nat {
        self.trust.failures_of(p)
    }

    pub closed spec fn ticks(&self) -> u64 {
        self.tick_count
    }

    pub closed spec fn has_transfer(&self) -> bool {
        self.active_transfer is Some
    }

    /// State of the active transfer (meaningful when there is one).
    pub closed spec fn transfer(&self) -> TransferView {
        self.active_transfer->0.state@
    }

    /// Chunk plan of the active transfer.
    pub closed spec fn plan(&self) -> Seq<(ChunkId, DeviceId)> {
        self.active_transfer->0.assignment@
    }

    /// Request tick of each chunk of the active transfer, by position.
    pub closed spec fn request_ticks(&self) -> Seq<Option<u64>> {
        self.active_transfer->0.request_ticks@
    }

    /// Peers are unique, never the local device, never isolated; the active
    /// transfer is well formed and assigns its own chunks to current workers.
    pub closed spec fn wf(&self) -> bool {
        &&& self.trust.wf()
        &&& self.base_wf()
        &&& self.active_transfer matches Some(a) ==> assigned_within(
            a.assignment@,
            self.workers(),
            a.state@.chunks,
        )
        &&& self.active_transfer matches Some(a) ==> covers(a.assignment@, a.state@.chunks)
    }

    closed spec fn base_wf(&self) -> bool {
        &&& forall|i: int, j: int|
            0 <= i < self.peers@.len() && 0 <= j < self.peers@.len() && (#[trigger] self.peers@[i]).device_id
                == (#[trigger] self.peers@[j]).device_id ==> i == j
        &&& forall|i: int| 0 <= i < self.peers@.len() ==> (#[trigger] self.peers@[i]).device_id != self.self_id()
        &&& forall|i: int|
            0 <= i < self.peers@.len() ==> !self.isolated@.contains((#[trigger] self.peers@[i]).device_id)
        &&& !self.isolated@.contains(self.self_id())
        &&& self.active_transfer matches Some(a) ==> {
            &&& a.state@.wf()
            &&& a.request_ticks@.len() == a.state@.chunks.len()
        }
    }

    /// A coordinator with a fresh keypair and the default limits.
    pub fn new() -> (r: PeaPodCore)
        ensures
            r.wf(),
            r.peer_table().len() == 0,
            r.isolated_ids().len() == 0,
            r.ticks() == 0,
            !r.has_transfer(),
            r.thresholds_spec() == default_thresholds(),
    {
        PeaPodCore::with_thresholds(Keypair::generate(), Thresholds::new())
    }

    /// A coordinator with a given keypair and the default limits.
    pub fn with_keypair(keypair: Keypair) -> (r: PeaPodCore)
        ensures
            r.wf(),
            r.self_id() == keypair.device_id_spec(),
            r.peer_table().len() == 0,
            r.isolated_ids().len() == 0,
            r.ticks() == 0,
            !r.has_transfer(),
            r.thresholds_spec() == default_thresholds(),
    {
        PeaPodCore::with_thresholds(keypair, Thresholds::new())
    }

    /// A coordinator with a given keypair and limits.
    pub fn with_thresholds(keypair: Keypair, thresholds: Thresholds) -> (r: PeaPodCore)
        ensures
            r.wf(),
            r.self_id() == keypair.device_id_spec(),
            r.peer_table().len() == 0,
            r.isolated_ids().len() == 0,
            r.ticks() == 0,
            !r.has_transfer(),
            r.thresholds_spec() == thresholds,
            forall|p: DeviceId| r.integrity_failures(p) == 0,
    {
        PeaPodCore {
            keypair,
            thresholds,
            peers: Vec::new(),
            isolated: Vec::new(),
            trust: PeerTrustTracker::new(),
            tick_count: 0,
            active_transfer: None,
            active_upload: None,
        }
    }

    /// This device's id.
    pub fn device_id(&self) -> (r: DeviceId)
        ensures
            r == self.self_id(),
    {
        self.keypair.device_id()
    }

    /// The current tick.
    pub fn tick_count(&self) -> (r: u64)
        ensures
            r == self.ticks(),
    {
        self.tick_count
    }

    /// The ids of the known peers, in order of arrival.
    pub fn peers(&self) -> (r: Vec<DeviceId>)
        ensures
            r@ == self.peer_ids(),
    {
        let mut out: Vec<DeviceId> = Vec::new();
        let mut i: usize = 0;
        while i < self.peers.len()
            invariant
                0 <= i <= self.peers@.len(),
                out@ =~= ids_of(self.peers@).subrange(0, i as int),
            decreases self.peers@.len() - i,
        {
            out.push(self.peers[i].device_id);
            i = i + 1;
        }
        out
    }

    /// The workers of a scheduling round: this device, then the peers.
    fn worker_list(&self) -> (r: Vec<DeviceId>)
        ensures
            r@ == self.workers(),
    {
        let mut out: Vec<DeviceId> = Vec::new();
        out.push(self.keypair.device_id());
        let mut i: usize = 0;
        while i < self.peers.len()
            invariant
                0 <= i <= self.peers@.len(),
                out@ =~= seq![self.self_id()] + ids_of(self.peers@).subrange(0, i as int),
            decreases self.peers@.len() - i,
        {
            out.push(self.peers[i].device_id);
            i = i + 1;
        }
        proof {
            assert(ids_of(self.peers@).subrange(0, self.peers@.len() as int) =~= ids_of(self.peers@));
        }
        out
    }

    /// Position of `peer` in the peer table.
    fn find_peer(&self, peer: &DeviceId) -> (r: Option<usize>)
        requires
            self.base_wf(),
        ensures
            r matches Some(i) ==> i < self.peers@.len() && self.peers@[i as int].device_id == *peer,
            r is None ==> !self.peer_ids().contains(*peer),
    {
        let mut i: usize = 0;
        while i < self.peers.len()
            invariant
                0 <= i <= self.peers@.len(),
                forall|j: int| 0 <= j < i ==> self.peers@[j].device_id != *peer,
            decreases self.peers@.len() - i,
        {
            if self.peers[i].device_id == *peer {
                return Some(i);
            }
            i = i + 1;
        }
        proof {
            if self.peer_ids().contains(*peer) {
                let j = choose|j: int| 0 <= j < self.peer_ids().len() && self.peer_ids()[j] == *peer;
                assert(self.peers@[j].device_id == *peer);
            }
        }
        None
    }

    /// Whether `peer` was isolated for repeated integrity failures.
    pub fn is_isolated(&self, peer: &DeviceId) -> (r: bool)
        ensures
            r == self.isolated_ids().contains(*peer),
    {
        let mut i: usize = 0;
        while i < self.isolated.len()
            invariant
                0 <= i <= self.isolated@.len(),
                forall|j: int| 0 <= j < i ==> self.isolated@[j] != *peer,
            decreases self.isolated@.len() - i,
        {
            if self.isolated[i] == *peer {
                return true;
            }
            i = i + 1;
        }
        false
    }
}

/// The `ChunkRequest`s (or WAN fetches, for the local device `self_id`)
/// that carry out a plan.
pub fn plan_requests(self_id: DeviceId, a: &[(ChunkId, DeviceId)]) -> (r: Vec<OutboundAction>)
    ensures
        r@ == request_actions(self_id, a@),
{
    let mut out: Vec<OutboundAction> = Vec::new();
    let mut i: usize = 0;
    while i < a.len()
        invariant
            0 <= i <= a@.len(),
            out@ =~= request_actions(self_id, a@).subrange(0, i as int),
        decreases a@.len() - i,
    {
        let (c, d) = a[i];
        if d == self_id {
            out.push(OutboundAction::WanFetch { peer: self_id, transfer_id: c.transfer_id, start: c.start, end: c.end });
        } else {
            out.push(OutboundAction::SendMessage(d, chunk_request_message(c)));
        }
        i = i + 1;
    }
    out
}

/// The entries of `a` that do not name `peer`.
fn keep_entries_not_of(a: &Vec<(ChunkId, DeviceId)>, peer: DeviceId) -> (r: Vec<(ChunkId, DeviceId)>)
    ensures
        r@ == entries_not_of(a@, peer),
{
    let mut out: Vec<(ChunkId, DeviceId)> = Vec::new();
    let mut i: usize = 0;
    while i < a.len()
        invariant
            0 <= i <= a@.len(),
            out@ == entries_not_of(a@.subrange(0, i as int), peer),
        decreases a@.len() - i,
    {
        proof {
            assert(a@.subrange(0, i as int + 1).drop_last() =~= a@.subrange(0, i as int));
        }
        if a[i].1 != peer {
            out.push(a[i]);
        }
        i = i + 1;
    }
    proof {
        assert(a@.subrange(0, a@.len() as int) =~= a@);
    }
    out
}

impl PeaPodCore {
    /// Re-deals the chunks that the plan gave to `gone` (no longer a peer)
    /// round-robin over the remaining workers, and returns their requests.
    fn redistribute(&mut self, gone: DeviceId, pending: Ghost<Seq<DeviceId>>) -> (r: Vec<OutboundAction>)
        requires
            old(self).trust.wf(),
            old(self).base_wf(),
            old(self).active_transfer matches Some(a) ==> assigned_within(
                a.assignment@,
                old(self).workers() + pending@.push(gone),
                a.state@.chunks,
            ),
            old(self).active_transfer matches Some(a) ==> covers(a.assignment@, a.state@.chunks),
        ensures
            final(self).active_transfer matches Some(a) ==> covers(a.assignment@, a.state@.chunks),
            final(self).trust.wf(),
            final(self).base_wf(),
            final(self).active_transfer matches Some(a) ==> assigned_within(
                a.assignment@,
                final(self).workers() + pending@,
                a.state@.chunks,
            ),
            pending@.len() == 0 ==> final(self).wf(),
            final(self).keypair == old(self).keypair,
            final(self).thresholds == old(self).thresholds,
            final(self).peers == old(self).peers,
            final(self).isolated == old(self).isolated,
            final(self).trust == old(self).trust,
            final(self).tick_count == old(self).tick_count,
            final(self).has_transfer() == old(self).has_transfer(),
            old(self).has_transfer() ==> {
                &&& final(self).transfer() == old(self).transfer()
                &&& final(self).request_ticks() == old(self).request_ticks()
                &&& final(self).plan() == entries_not_of(old(self).plan(), gone) + round_robin(
                    chunks_of(old(self).plan(), gone),
                    old(self).workers(),
                )
                &&& r@ == request_actions(
                    old(self).self_id(),
                    round_robin(chunks_of(old(self).plan(), gone), old(self).workers()),
                )
            },
            !old(self).has_transfer() ==> r@.len() == 0,
            forall|i: int| 0 <= i < r@.len() ==> addressed_to(#[trigger] r@[i], final(self).workers()),
    {
        let workers = self.worker_list();
        let self_id = self.keypair.device_id();
        proof {
            lemma_requests_addressed(self.self_id(), chunks_of(self.plan(), gone), self.workers());
        }
        match self.active_transfer.take() {
            None => Vec::new(),
            Some(a) => {
                let ActiveTransfer { state, assignment, request_ticks } = a;
                let moved = reassign_after_peer_left(assignment.as_slice(), gone, workers.as_slice());
                let mut plan = keep_entries_not_of(&assignment, gone);
                let actions = plan_requests(self_id, moved.as_slice());
                let ghost kept = plan@;
                let mut i: usize = 0;
                while i < moved.len()
                    invariant
                        0 <= i <= moved@.len(),
                        plan@ == kept + moved@.subrange(0, i as int),
                    decreases moved@.len() - i,
                {
                    plan.push(moved[i]);
                    i = i + 1;
                    proof {
                        assert(plan@ =~= kept + moved@.subrange(0, i as int));
                    }
                }
                proof {
                    assert(moved@.subrange(0, moved@.len() as int) =~= moved@);
                    lemma_entries_of(assignment@, gone);
                    lemma_redeal_covers(assignment@, gone, self.workers(), state@.chunks);
                    assert(plan@ =~= entries_not_of(assignment@, gone) + round_robin(
                        chunks_of(assignment@, gone),
                        self.workers(),
                    ));
                    let ws = self.workers();
                    let wp = ws + pending@;
                    let wpg = ws + pending@.push(gone);
                    let cs = state@.chunks;
                    assert forall|j: int| 0 <= j < plan@.len() implies wp.contains((#[trigger] plan@[j]).1)
                        && cs.contains(plan@[j].0) by {
                        if j < kept.len() {
                            let e = kept[j];
                            assert(plan@[j] == e);
                            let k = choose|k: int| 0 <= k < assignment@.len() && assignment@[k] == e;
                            assert(wpg.contains(assignment@[k].1));
                            let m = choose|m: int| 0 <= m < wpg.len() && wpg[m] == e.1;
                            assert(m < wp.len());
                            assert(wp[m] == e.1);
                        } else {
                            let q = j - kept.len();
                            assert(plan@[j] == moved@[q]);
                            let chs = chunks_of(assignment@, gone);
                            assert(moved@[q] == (chs[q], ws[q % (ws.len() as int)]));
                            assert(wp[q % (ws.len() as int)] == ws[q % (ws.len() as int)]);
                            let e = entries_of(assignment@, gone)[q];
                            let k = choose|k: int| 0 <= k < assignment@.len() && assignment@[k] == e;
                            assert(cs.contains(assignment@[k].0));
                        }
                    }
                    if pending@.len() == 0 {
                        assert(wp =~= ws);
                    }
                }
                self.active_transfer = Some(ActiveTransfer { state, assignment: plan, request_ticks });
                actions
            },
        }
    }

    /// A peer joined (or announced itself again): it is added to the peer
    /// table, or its entry refreshed. The local device and isolated peers are
    /// refused.
    pub fn on_peer_joined(&mut self, peer_id: DeviceId, public_key: &PublicKey)
        requires
            old(self).wf(),
        ensures
            final(self).wf(),
            keeps_settings(*old(self), *final(self)),
            final(self).ticks() == old(self).ticks(),
            final(self).isolated_ids() == old(self).isolated_ids(),
            old(self).differs_in_peers_only(*final(self)),
            peer_id == old(self).self_id() || old(self).isolated_ids().contains(peer_id) ==> *final(self)
                == *old(self),
            !(peer_id == old(self).self_id() || old(self).isolated_ids().contains(peer_id)) ==> {
                &&& final(self).peer_ids() == (if old(self).peer_ids().contains(peer_id) {
                    old(self).peer_ids()
                } else {
                    old(self).peer_ids().push(peer_id)
                })
                &&& forall|i: int|
                    0 <= i < final(self).peer_table().len() && (#[trigger] final(self).peer_table()[i]).device_id
                        == peer_id ==> final(self).peer_table()[i].last_seen == old(self).ticks()
                        && final(self).peer_table()[i].public_key == *public_key
            },
    {
        if peer_id == self.keypair.device_id() || self.is_isolated(&peer_id) {
            return;
        }
        let ghost before = self.peers@;
        match self.find_peer(&peer_id) {
            Some(i) => {
                let mut e = self.peers[i];
                e.last_seen = self.tick_count;
                e.public_key = *public_key;
                self.peers.set(i, e);
                proof {
                    assert(ids_of(self.peers@) =~= ids_of(before));
                    assert(ids_of(before)[i as int] == peer_id);
                    assert forall|j: int|
                        0 <= j < self.peers@.len() && (#[trigger] self.peers@[j]).device_id == peer_id implies j
                        == i by {
                        if j != i {
                            assert(before[j] == self.peers@[j]);
                            assert(before[j].device_id == before[i as int].device_id);
                        }
                    }
                }
            },
            None => {
                self.peers.push(PeerEntry {
                    device_id: peer_id,
                    public_key: *public_key,
                    last_seen: self.tick_count,
                    metrics: PeerMetrics::new(),
                });
                proof {
                    assert(ids_of(self.peers@) =~= ids_of(before).push(peer_id));
                    assert forall|j: int| 0 <= j < before.len() implies before[j].device_id != peer_id by {
                        assert(ids_of(before)[j] == before[j].device_id);
                    }
                }
            },
        }
        proof {
            let ws = self.workers();
            if let Some(a) = &self.active_transfer {
                assert forall|j: int| 0 <= j < a.assignment@.len() implies ws.contains(
                    (#[trigger] a.assignment@[j]).1,
                ) && a.state@.chunks.contains(a.assignment@[j].0) by {
                    let ows = seq![self.self_id()] + ids_of(before);
                    assert(ows.contains(a.assignment@[j].1));
                    let m = choose|m: int| 0 <= m < ows.len() && ows[m] == a.assignment@[j].1;
                    assert(ws[m] == ows[m]);
                }
            }
        }
    }

    /// A heartbeat from a known peer refreshes its last-seen tick; one from
    /// an unknown device is ignored.
    pub fn on_heartbeat_received(&mut self, peer_id: DeviceId)
        requires
            old(self).wf(),
        ensures
            final(self).wf(),
            keeps_settings(*old(self), *final(self)),
            final(self).peer_ids() == old(self).peer_ids(),
            final(self).ticks() == old(self).ticks(),
            final(self).isolated_ids() == old(self).isolated_ids(),
            old(self).differs_in_peers_only(*final(self)),
            forall|i: int|
                0 <= i < final(self).peer_table().len() ==> (#[trigger] final(self).peer_table()[i]).last_seen
                    == (if old(self).peer_table()[i].device_id == peer_id {
                    old(self).ticks()
                } else {
                    old(self).peer_table()[i].last_seen
                }),
    {
        let ghost before = self.peers@;
        match self.find_peer(&peer_id) {
            Some(i) => {
                let mut e = self.peers[i];
                e.last_seen = self.tick_count;
                self.peers.set(i, e);
                proof {
                    assert(ids_of(self.peers@) =~= ids_of(before));
                }
            },
            None => {
                proof {
                    assert forall|i: int| 0 <= i < before.len() implies before[i].device_id != peer_id by {
                        assert(ids_of(before)[i] == before[i].device_id);
                    }
                }
            },
        }
        proof {
            assert(self.workers() =~= seq![self.self_id()] + ids_of(before));
        }
    }

    /// A peer left: it is removed from the peer table and its chunks are
    /// re-dealt over the remaining workers; the result holds their requests.
    pub fn on_peer_left(&mut self, peer_id: DeviceId) -> (r: Vec<OutboundAction>)
        requires
            old(self).wf(),
        ensures
            final(self).wf(),
            keeps_settings(*old(self), *final(self)),
            final(self).ticks() == old(self).ticks(),
            final(self).isolated_ids() == old(self).isolated_ids(),
            peer_id == old(self).self_id() ==> *final(self) == *old(self) && r@.len() == 0,
            peer_id != old(self).self_id() ==> {
                &&& final(self).peer_table() == without_peer(old(self).peer_table(), peer_id)
                &&& !final(self).peer_ids().contains(peer_id)
                &&& final(self).has_transfer() == old(self).has_transfer()
                &&& !old(self).has_transfer() ==> r@.len() == 0
                &&& old(self).has_transfer() ==> {
                    &&& final(self).transfer() == old(self).transfer()
                    &&& final(self).request_ticks() == old(self).request_ticks()
                    &&& final(self).plan() == entries_not_of(old(self).plan(), peer_id) + round_robin(
                        chunks_of(old(self).plan(), peer_id),
                        final(self).workers(),
                    )
                    &&& r@ == request_actions(
                        old(self).self_id(),
                        round_robin(chunks_of(old(self).plan(), peer_id), final(self).workers()),
                    )
                }
            },
    {
        if peer_id == self.keypair.device_id() {
            return Vec::new();
        }
        self.remove_peer(peer_id);
        proof {
            assert(self.workers().push(peer_id) =~= self.workers() + Seq::<DeviceId>::empty().push(peer_id));
        }
        self.redistribute(peer_id, Ghost(Seq::empty()))
    }

    /// Removes `peer` from the peer table.
    fn remove_peer(&mut self, peer: DeviceId)
        requires
            old(self).wf(),
            peer != old(self).self_id(),
        ensures
            final(self).trust.wf(),
            final(self).base_wf(),
            final(self).peers@ == without_peer(old(self).peers@, peer),
            !final(self).peer_ids().contains(peer),
            final(self).active_transfer matches Some(a) ==> assigned_within(
                a.assignment@,
                final(self).workers().push(peer),
                a.state@.chunks,
            ),
            final(self).keypair == old(self).keypair,
            final(self).thresholds == old(self).thresholds,
            final(self).isolated == old(self).isolated,
            final(self).trust == old(self).trust,
            final(self).tick_count == old(self).tick_count,
            final(self).active_transfer == old(self).active_transfer,
    {
        let ghost before = self.peers@;
        let mut kept: Vec<PeerEntry> = Vec::new();
        let mut i: usize = 0;
        while i < self.peers.len()
            invariant
                0 <= i <= self.peers@.len(),
                self.peers@ == before,
                kept@ == without_peer(before.subrange(0, i as int), peer),
            decreases self.peers@.len() - i,
        {
            proof {
                assert(before.subrange(0, i as int + 1).drop_last() =~= before.subrange(0, i as int));
            }
            if self.peers[i].device_id != peer {
                kept.push(self.peers[i]);
            }
            i = i + 1;
        }
        proof {
            assert(before.subrange(0, before.len() as int) =~= before);
            lemma_without_peer(before, peer);
        }
        self.peers = kept;
        proof {
            let after = self.peers@;
            assert forall|x: int, y: int|
                0 <= x < after.len() && 0 <= y < after.len() && (#[trigger] after[x]).device_id
                    == (#[trigger] after[y]).device_id implies x == y by {
                lemma_without_peer_unique(before, peer);
            }
            assert forall|x: int| 0 <= x < after.len() implies (#[trigger] after[x]).device_id != self.self_id()
                && !self.isolated@.contains(after[x].device_id) by {
                let k = choose|k: int| 0 <= k < before.len() && before[k] == after[x];
            }
            assert(!self.peer_ids().contains(peer));
            if let Some(a) = &self.active_transfer {
                let ws = self.workers().push(peer);
                let ows = seq![self.self_id()] + ids_of(before);
                assert forall|j: int| 0 <= j < a.assignment@.len() implies ws.contains(
                    (#[trigger] a.assignment@[j]).1,
                ) && a.state@.chunks.contains(a.assignment@[j].0) by {
                    let d = a.assignment@[j].1;
                    assert(ows.contains(d));
                    let m = choose|m: int| 0 <= m < ows.len() && ows[m] == d;
                    if m == 0 {
                        assert(ws[0] == d);
                    } else if d == peer {
                        assert(ws[ws.len() - 1] == d);
                    } else {
                        assert(before[m - 1].device_id == d);
                        assert(after.contains(before[m - 1]));
                        let n = choose|n: int| 0 <= n < after.len() && after[n] == before[m - 1];
                        assert(ws[n + 1] == d);
                    }
                }
            }
        }
    }

    /// The active transfer's chunk plan, if any.
    pub fn current_assignment(&self) -> (r: Option<Vec<(ChunkId, DeviceId)>>)
        ensures
            r is Some <==> self.has_transfer(),
            r matches Some(a) ==> a@ == self.plan(),
    {
        match &self.active_transfer {
            Some(a) => Some(vstd::slice::slice_to_vec(a.assignment.as_slice())),
            None => None,
        }
    }
}

proof fn lemma_without_peer_unique(ps: Seq<PeerEntry>, peer: DeviceId)
    requires
        forall|i: int, j: int|
            0 <= i < ps.len() && 0 <= j < ps.len() && (#[trigger] ps[i]).device_id == (#[trigger] ps[j]).device_id
                ==> i == j,
    ensures
        forall|i: int, j: int|
            0 <= i < without_peer(ps, peer).len() && 0 <= j < without_peer(ps, peer).len()
                && (#[trigger] without_peer(ps, peer)[i]).device_id == (#[trigger] without_peer(
                ps,
                peer,
            )[j]).device_id ==> i == j,
    decreases ps.len(),
{
    if ps.len() > 0 {
        let d = ps.drop_last();
        lemma_without_peer_unique(d, peer);
        lemma_without_peer(d, peer);
        let w = without_peer(ps, peer);
        let wd = without_peer(d, peer);
        assert forall|i: int, j: int|
            0 <= i < w.len() && 0 <= j < w.len() && (#[trigger] w[i]).device_id == (#[trigger] w[j]).device_id
                implies i == j by {
            if i < wd.len() && j < wd.len() {
                assert(w[i] == wd[i] && w[j] == wd[j]);
            } else if i < wd.len() {
                let k = choose|k: int| 0 <= k < d.len() && d[k] == wd[i];
                assert(ps[k] == d[k]);
                assert(ps[ps.len() - 1].device_id == ps[k].device_id);
            } else if j < wd.len() {
                let k = choose|k: int| 0 <= k < d.len() && d[k] == wd[j];
                assert(ps[k] == d[k]);
                assert(ps[ps.len() - 1].device_id == ps[k].device_id);
            }
        }
    }
}

/// ASCII lower case of a byte.
pub open spec fn ascii_lower(b: u8) -> u8 {
    if 65 <= b <= 90 {
        (b + 32) as u8
    } else {
        b
    }
}

/// `s` starts with `prefix`, ignoring ASCII case (`prefix` is lower case).
pub open spec fn starts_with_ci(s: Seq<u8>, prefix: Seq<u8>) -> bool {
    s.len() >= prefix.len() && forall|i: int| 0 <= i < prefix.len() ==> ascii_lower(#[trigger] s[i]) == prefix[i]
}

/// The URL's scheme is `http` or `https`, in any case.
pub open spec fn is_http_url(url: Seq<u8>) -> bool {
    starts_with_ci(url, seq![104u8, 116, 116, 112, 58]) || starts_with_ci(url, seq![104u8, 116, 116, 112, 115, 58])
}

/// Length of an inclusive byte range `(start, end)`, capped at `u64::MAX`;
/// 0 for an absent or degenerate (`end < start`) range.
pub open spec fn range_length(range: Option<(u64, u64)>) -> nat {
    match range {
        Some((s, e)) => if e < s {
            0
        } else if e - s + 1 > u64::MAX {
            u64::MAX as nat
        } else {
            (e - s + 1) as nat
        },
        None => 0,
    }
}

/// Each peer's id with its metrics.
pub open spec fn metrics_of(ps: Seq<PeerEntry>) -> Seq<(DeviceId, PeerMetrics)> {
    Seq::new(ps.len(), |i: int| (ps[i].device_id, ps[i].metrics))
}

fn starts_with_ci_exec(s: &[u8], prefix: &Vec<u8>) -> (r: bool)
    ensures
        r == starts_with_ci(s@, prefix@),
{
    if s.len() < prefix.len() {
        return false;
    }
    let mut i: usize = 0;
    while i < prefix.len()
        invariant
            0 <= i <= prefix@.len(),
            s@.len() >= prefix@.len(),
            forall|j: int| 0 <= j < i ==> ascii_lower(#[trigger] s@[j]) == prefix@[j],
        decreases prefix@.len() - i,
    {
        let b = s[i];
        let lower: u8 = if 65 <= b && b <= 90 {
            b + 32
        } else {
            b
        };
        if lower != prefix[i] {
            return false;
        }
        i = i + 1;
    }
    true
}

/// Whether a URL's scheme is `http` or `https` (in any case).
pub fn is_http_scheme(url: &str) -> (r: bool)
    ensures
        r == is_http_url(url.spec_bytes()),
{
    let bytes = url.as_bytes();
    let http: Vec<u8> = vec![104u8, 116, 116, 112, 58];
    let https: Vec<u8> = vec![104u8, 116, 116, 112, 115, 58];
    proof {
        assert(http@ =~= seq![104u8, 116, 116, 112, 58]);
        assert(https@ =~= seq![104u8, 116, 116, 112, 115, 58]);
    }
    starts_with_ci_exec(bytes, &http) || starts_with_ci_exec(bytes, &https)
}

/// Relies on `uuid::Uuid::new_v4`: a random version-4 UUID as 16 bytes, of
/// which nothing is promised here.
#[verifier::external_body]
fn new_transfer_id() -> (r: [u8; 16]) {
    uuid::Uuid::new_v4().into_bytes()
}

impl PeaPodCore {
    fn metric_list(&self) -> (r: Vec<(DeviceId, PeerMetrics)>)
        ensures
            r@ == metrics_of(self.peers@),
    {
        let mut out: Vec<(DeviceId, PeerMetrics)> = Vec::new();
        let mut i: usize = 0;
        while i < self.peers.len()
            invariant
                0 <= i <= self.peers@.len(),
                out@ =~= metrics_of(self.peers@).subrange(0, i as int),
            decreases self.peers@.len() - i,
        {
            out.push((self.peers[i].device_id, self.peers[i].metrics));
            i = i + 1;
        }
        out
    }

    /// Answers an incoming request for `url` with an inclusive byte range: an
    /// accelerated plan under a freshly minted transfer id, or a fallback.
    pub fn on_incoming_request(&mut self, url: &str, range: Option<(u64, u64)>) -> (r: Action)
        requires
            old(self).wf(),
        ensures
            final(self).wf(),
            keeps_settings(*old(self), *final(self)),
            r is Fallback <==> !is_http_url(url.spec_bytes()) || range_length(range) == 0
                || old(self).peer_table().len() == 0,
            r is Fallback ==> *final(self) == *old(self),
            r matches Action::Accelerate { transfer_id: t, total_length: n, assignment: a } ==> {
                &&& n == range_length(range)
                &&& a@ == final(self).plan()
                &&& final(self).has_transfer()
                &&& final(self).transfer().transfer_id == t
                &&& crate::chunk::is_split(final(self).transfer().chunks, t, n as nat, DEFAULT_CHUNK_SIZE as nat)
                &&& final(self).plan() == round_robin(
                    final(self).transfer().chunks,
                    effective_workers(
                        old(self).workers(),
                        metrics_of(old(self).peer_table()),
                        old(self).thresholds_spec().isolation_threshold as u64,
                    ),
                )
                &&& final(self).transfer().total_length == n
                &&& forall|k: int|
                    0 <= k < final(self).transfer().chunks.len() ==> (#[trigger] final(self).transfer().stored[k])
                        is None && final(self).transfer().flying[k] && final(self).request_ticks()[k] == Some(
                        old(self).ticks(),
                    )
                &&& final(self).peer_table() == old(self).peer_table()
                &&& final(self).isolated_ids() == old(self).isolated_ids()
                &&& final(self).ticks() == old(self).ticks()
            },
    {
        let transfer_id = new_transfer_id();
        self.on_incoming_request_with_id(url, range, transfer_id)
    }

    /// Answers an incoming request under a given transfer id. The request
    /// falls back when the URL's scheme is not `http`/`https`, the range is
    /// absent or degenerate, or no peer is known. Otherwise the range's length
    /// is split into default-size chunks, dealt round-robin over this device
    /// and the peers (leaving out peers with too many failures), and made the
    /// active transfer (replacing any earlier one) with every chunk in flight
    /// since the current tick.
    pub fn on_incoming_request_with_id(&mut self, url: &str, range: Option<(u64, u64)>, transfer_id: [u8; 16]) -> (r: Action)
        requires
            old(self).wf(),
        ensures
            final(self).wf(),
            keeps_settings(*old(self), *final(self)),
            !is_http_url(url.spec_bytes()) || range_length(range) == 0 || old(self).peer_table().len() == 0
                ==> r is Fallback && *final(self) == *old(self),
            is_http_url(url.spec_bytes()) && range_length(range) > 0 && old(self).peer_table().len() > 0 ==> {
                &&& r matches Action::Accelerate { transfer_id: t, total_length: n, assignment: a } && {
                    &&& t == transfer_id
                    &&& n == range_length(range)
                    &&& a@ == final(self).plan()
                }
                &&& final(self).has_transfer()
                &&& final(self).transfer().transfer_id == transfer_id
                &&& final(self).transfer().total_length == range_length(range)
                &&& crate::chunk::is_split(
                    final(self).transfer().chunks,
                    transfer_id,
                    range_length(range),
                    DEFAULT_CHUNK_SIZE as nat,
                )
                &&& final(self).plan() == round_robin(
                    final(self).transfer().chunks,
                    effective_workers(
                        old(self).workers(),
                        metrics_of(old(self).peer_table()),
                        old(self).thresholds_spec().isolation_threshold as u64,
                    ),
                )
                &&& forall|k: int|
                    0 <= k < final(self).transfer().chunks.len() ==> (#[trigger] final(self).transfer().stored[k])
                        is None && final(self).transfer().flying[k] && final(self).request_ticks()[k] == Some(
                        old(self).ticks(),
                    )
                &&& final(self).peer_table() == old(self).peer_table()
                &&& final(self).isolated_ids() == old(self).isolated_ids()
                &&& final(self).ticks() == old(self).ticks()
            },
    {
        if !is_http_scheme(url) {
            return Action::Fallback;
        }
        let total_length: u64 = match range {
            Some((s, e)) => if e < s {
                0
            } else {
                (e - s).saturating_add(1)
            },
            None => 0,
        };
        if total_length == 0 || self.peers.len() == 0 {
            return Action::Fallback;
        }
        let chunk_ids = split_into_chunks(transfer_id, total_length, DEFAULT_CHUNK_SIZE);
        let workers = self.worker_list();
        let metrics = self.metric_list();
        let assignment = assign_chunks_with_metrics(
            chunk_ids.as_slice(),
            workers.as_slice(),
            metrics.as_slice(),
            self.thresholds.isolation_threshold as u64,
        );
        let n = chunk_ids.len();
        let ghost cs = chunk_ids@;
        let mut state = TransferState::new(transfer_id, total_length, chunk_ids);
        state.mark_all_in_flight();
        let mut request_ticks: Vec<Option<u64>> = Vec::new();
        let mut i: usize = 0;
        while i < n
            invariant
                0 <= i <= n,
                request_ticks@.len() == i,
                forall|k: int| 0 <= k < i ==> request_ticks@[k] == Some(self.tick_count),
            decreases n - i,
        {
            request_ticks.push(Some(self.tick_count));
            i = i + 1;
        }
        proof {
            let ws = self.workers();
            let ms = metrics_of(self.peers@);
            let thr = self.thresholds.isolation_threshold as u64;
            let eff = effective_workers(ws, ms, thr);
            lemma_eligible_workers(ws, ms, thr);
            assert(ws[0] == self.self_id());
            assert forall|j: int| 0 <= j < assignment@.len() implies ws.contains((#[trigger] assignment@[j]).1)
                && cs.contains(assignment@[j].0) by {
                let m = j % (eff.len() as int);
                assert(assignment@[j] == (cs[j], eff[m]));
                if eligible_workers(ws, ms, thr).len() == 0 {
                    assert(ws.contains(eff[m]));
                } else {
                    assert(ws.contains(eligible_workers(ws, ms, thr)[m]));
                }
            }
        }
        proof {
            assert forall|k: int| 0 <= k < cs.len() implies plan_has(assignment@, #[trigger] cs[k]) by {
                assert(assignment@[k].0 == cs[k]);
            }
        }
        let result_plan = vstd::slice::slice_to_vec(assignment.as_slice());
        self.active_transfer = Some(ActiveTransfer { state, assignment, request_ticks });
        Action::Accelerate { transfer_id, total_length, assignment: result_plan }
    }
}

impl PeaPodCore {
    /// Charges an integrity failure to `peer`; at the isolation threshold the
    /// peer is isolated and its chunks are re-dealt (their requests returned).
    fn charge_integrity_failure(&mut self, peer: DeviceId) -> (r: Vec<OutboundAction>)
        requires
            old(self).wf(),
            peer != old(self).self_id(),
        ensures
            final(self).wf(),
            keeps_settings(*old(self), *final(self)),
            final(self).self_id() == old(self).self_id(),
            final(self).thresholds_spec() == old(self).thresholds_spec(),
            final(self).ticks() == old(self).ticks(),
            final(self).has_transfer() == old(self).has_transfer(),
            old(self).has_transfer() ==> final(self).transfer() == old(self).transfer()
                && final(self).request_ticks() == old(self).request_ticks(),
            final(self).integrity_failures(peer) == (if old(self).integrity_failures(peer) < u32::MAX {
                old(self).integrity_failures(peer) + 1
            } else {
                old(self).integrity_failures(peer)
            }),
            forall|p: DeviceId| p != peer ==> final(self).integrity_failures(p) == old(self).integrity_failures(p),
            final(self).integrity_failures(peer) >= old(self).thresholds_spec().isolation_threshold ==> {
                &&& final(self).isolated_ids().contains(peer)
                &&& !final(self).peer_ids().contains(peer)
                &&& old(self).has_transfer() ==> final(self).plan() == redeal_of(old(self).plan(), peer, final(self).workers())
                &&& old(self).has_transfer() ==> r@ == request_actions(
                    old(self).self_id(),
                    round_robin(chunks_of(old(self).plan(), peer), final(self).workers()),
                )
                &&& !old(self).has_transfer() ==> r@.len() == 0
            },
            final(self).isolated_ids().len() >= old(self).isolated_ids().len(),
            final(self).integrity_failures(peer) < old(self).thresholds_spec().isolation_threshold ==> {
                &&& r@.len() == 0
                &&& final(self).isolated_ids() == old(self).isolated_ids()
                &&& final(self).peer_ids() == old(self).peer_ids()
                &&& *final(self) == (PeaPodCore { trust: final(self).trust, peers: final(self).peers, ..*old(self) })
            },
            forall|i: int|
                0 <= i < old(self).peer_table().len() && old(self).peer_table()[i].device_id != peer
                    ==> final(self).peer_table().contains(#[trigger] old(self).peer_table()[i]),
    {
        self.trust.record_failure(peer);
        let ghost before = self.peers@;
        match self.find_peer(&peer) {
            Some(i) => {
                let mut e = self.peers[i];
                e.metrics.record_failure();
                self.peers.set(i, e);
                proof {
                    assert(ids_of(self.peers@) =~= ids_of(before));
                    assert(self.workers() =~= seq![self.self_id()] + ids_of(before));
                }
            },
            None => {},
        }
        let ghost mid = self.peers@;
        proof {
            assert(mid.len() == before.len());
            assert forall|q: int| 0 <= q < before.len() && before[q].device_id != peer implies mid[q] == before[q] by {}
        }
        if self.trust.failure_count(&peer) >= self.thresholds.isolation_threshold {
            self.remove_peer(peer);
            proof {
                lemma_without_peer(mid, peer);
                assert forall|q: int|
                    0 <= q < before.len() && before[q].device_id != peer implies self.peers@.contains(
                    #[trigger] before[q],
                ) by {
                    assert(mid[q] == before[q]);
                }
            }
            self.isolated.push(peer);
            proof {
                assert(self.isolated@.last() == peer);
                assert forall|i: int| 0 <= i < self.peers@.len() implies !self.isolated@.contains(
                    (#[trigger] self.peers@[i]).device_id,
                ) by {
                    assert(ids_of(self.peers@)[i] == self.peers@[i].device_id);
                    if self.isolated@.contains(self.peers@[i].device_id) {
                        let j = choose|j: int| 0 <= j < self.isolated@.len() && self.isolated@[j] == self.peers@[i].device_id;
                        if j < self.isolated@.len() - 1 {
                            assert(old(self).isolated@[j] == self.isolated@[j]);
                            let k = choose|k: int| 0 <= k < before.len() && before[k] == self.peers@[i];
                            assert(!old(self).isolated@.contains(before[k].device_id));
                        }
                    }
                }
            }
            proof {
                assert(self.workers().push(peer) =~= self.workers() + Seq::<DeviceId>::empty().push(peer));
            }
            self.redistribute(peer, Ghost(Seq::empty()))
        } else {
            proof {
                assert forall|q: int|
                    0 <= q < before.len() && before[q].device_id != peer implies self.peers@.contains(
                    #[trigger] before[q],
                ) by {
                    assert(self.peers@[q] == before[q]);
                }
            }
            Vec::new()
        }
    }

    /// Records the request of a chunk of the active transfer at the current
    /// tick; the chunk is in flight again. Other chunks are ignored.
    pub fn mark_chunk_requested(&mut self, chunk_id: ChunkId)
        requires
            old(self).wf(),
        ensures
            final(self).wf(),
            keeps_settings(*old(self), *final(self)),
            final(self).has_transfer() == old(self).has_transfer(),
            final(self).peer_table() == old(self).peer_table(),
            old(self).has_transfer() && old(self).transfer().index(chunk_id) >= 0 ==> final(self).request_ticks()
                == old(self).request_ticks().update(old(self).transfer().index(chunk_id), Some(old(self).ticks())),
            old(self).has_transfer() && old(self).transfer().index(chunk_id) >= 0 ==> final(self).transfer() == (
            TransferView {
                flying: if old(self).transfer().stored[old(self).transfer().index(chunk_id)] is None {
                    old(self).transfer().flying.update(old(self).transfer().index(chunk_id), true)
                } else {
                    old(self).transfer().flying
                },
                ..old(self).transfer()
            }),
            old(self).has_transfer() && old(self).transfer().index(chunk_id) < 0 ==> *final(self) == *old(self),
    {
        let now = self.tick_count;
        match self.active_transfer.take() {
            None => {},
            Some(mut a) => {
                match a.state.position(&chunk_id) {
                    Some(k) => {
                        a.request_ticks.set(k, Some(now));
                        a.state.mark_in_flight(chunk_id);
                    },
                    None => {},
                }
                self.active_transfer = Some(a);
            },
        }
    }

    /// Tick at which a chunk of the active transfer was last requested, if it
    /// is awaited.
    pub fn request_tick_of(&self, chunk_id: &ChunkId) -> (r: Option<u64>)
        requires
            self.wf(),
        ensures
            !self.has_transfer() || self.transfer().index(*chunk_id) < 0 ==> r is None,
            self.has_transfer() && self.transfer().index(*chunk_id) >= 0 ==> r == self.request_ticks()[self.transfer().index(
                *chunk_id,
            )],
    {
        match &self.active_transfer {
            None => None,
            Some(a) => match a.state.position(chunk_id) {
                Some(k) => a.request_ticks[k],
                None => None,
            },
        }
    }

    /// Counts one more success for every peer that the plan names.
    fn record_successes(&mut self, plan: &Vec<(ChunkId, DeviceId)>)
        requires
            old(self).wf(),
        ensures
            final(self).wf(),
            final(self).peer_ids() == old(self).peer_ids(),
            old(self).differs_in_peers_only(*final(self)),
            final(self).peer_table().len() == old(self).peer_table().len(),
            forall|i: int|
                0 <= i < old(self).peer_table().len() ==> credited(
                    old(self).peer_table()[i],
                    #[trigger] final(self).peer_table()[i],
                    plan@,
                ),
    {
        let ghost before = self.peers@;
        let mut i: usize = 0;
        while i < self.peers.len()
            invariant
                0 <= i <= self.peers@.len(),
                ids_of(self.peers@) == ids_of(before),
                self.peers@.len() == before.len(),
                forall|j: int| 0 <= j < i ==> credited(before[j], #[trigger] self.peers@[j], plan@),
                forall|j: int| i <= j < before.len() ==> #[trigger] self.peers@[j] == before[j],
                *self == (PeaPodCore { peers: self.peers, ..*old(self) }),
            decreases self.peers@.len() - i,
        {
            let id = self.peers[i].device_id;
            let mut named = false;
            let mut j: usize = 0;
            while j < plan.len()
                invariant
                    0 <= j <= plan@.len(),
                    named == exists|q: int| 0 <= q < j && (#[trigger] plan@[q]).1 == id,
                decreases plan@.len() - j,
            {
                if plan[j].1 == id {
                    named = true;
                }
                j = j + 1;
            }
            let ghost cur = self.peers@;
            if named {
                let mut e = self.peers[i];
                e.metrics.record_success();
                self.peers.set(i, e);
                proof {
                    assert(ids_of(self.peers@) =~= ids_of(before));
                }
            }
            proof {
                assert(before[i as int].device_id == id);
                assert forall|q: int| 0 <= q < i + 1 implies credited(before[q], #[trigger] self.peers@[q], plan@) by {
                    if q < i {
                        assert(self.peers@[q] == cur[q]);
                    }
                }
            }
            i = i + 1;
        }
        proof {
            assert(self.workers() =~= old(self).workers());
            assert forall|x: int, y: int|
                0 <= x < self.peers@.len() && 0 <= y < self.peers@.len() && (#[trigger] self.peers@[x]).device_id
                    == (#[trigger] self.peers@[y]).device_id implies x == y by {
                assert(ids_of(self.peers@)[x] == ids_of(before)[x]);
                assert(ids_of(self.peers@)[y] == ids_of(before)[y]);
                assert(before[x].device_id == before[y].device_id);
            }
            assert forall|x: int| 0 <= x < self.peers@.len() implies (#[trigger] self.peers@[x]).device_id
                != self.self_id() && !self.isolated@.contains(self.peers@[x].device_id) by {
                assert(ids_of(self.peers@)[x] == ids_of(before)[x]);
                assert(before[x].device_id == self.peers@[x].device_id);
            }
        }
    }
}

/// `after` is `before` with one more success (up to the counter's limit)
/// when the plan `plan` names the peer, and otherwise unchanged.
pub open spec fn credited(before: PeerEntry, after: PeerEntry, plan: Seq<(ChunkId, DeviceId)>) -> bool {
    &&& after.device_id == before.device_id
    &&& after.public_key == before.public_key
    &&& after.last_seen == before.last_seen
    &&& after.metrics.failures == before.metrics.failures
    &&& after.metrics.successes == if (exists|q: int| 0 <= q < plan.len() && (#[trigger] plan[q]).1 == before.device_id)
        && before.metrics.successes < u64::MAX {
        (before.metrics.successes + 1) as u64
    } else {
        before.metrics.successes
    }
}

/// `after` keeps `before`'s identity and limits.
pub open spec fn keeps_settings(before: PeaPodCore, after: PeaPodCore) -> bool {
    &&& after.self_id() == before.self_id()
    &&& after.own_public_key() == before.own_public_key()
    &&& after.thresholds_spec() == before.thresholds_spec()
}

/// `after` holds one more integrity failure of `p` than `before` (up to the
/// counter's limit) and, at the isolation threshold, `p` is isolated and no
/// longer a peer.
pub open spec fn charged(before: PeaPodCore, after: PeaPodCore, p: DeviceId) -> bool {
    &&& after.integrity_failures(p) == (if before.integrity_failures(p) < u32::MAX {
        before.integrity_failures(p) + 1
    } else {
        before.integrity_failures(p)
    })
    &&& after.integrity_failures(p) >= before.thresholds_spec().isolation_threshold ==> {
        &&& after.isolated_ids().contains(p)
        &&& !after.peer_ids().contains(p)
    }
}

/// `f + n`, saturated at `u64::MAX`.
pub open spec fn bump(f: u64, n: nat) -> u64 {
    if f + n > u64::MAX {
        u64::MAX
    } else {
        (f + n) as u64
    }
}

/// Number of the first `n` chunks whose request timed out at `now` and that
/// `plan` gives to `d`.
pub open spec fn timeout_charges(
    plan: Seq<(ChunkId, DeviceId)>,
    chunks: Seq<ChunkId>,
    ticks: Seq<Option<u64>>,
    now: u64,
    timeout: u64,
    d: DeviceId,
    n: int,
) -> nat
    decreases n,
{
    if n <= 0 {
        0
    } else {
        timeout_charges(plan, chunks, ticks, now, timeout, d, n - 1) + if timed_out(ticks[n - 1], now, timeout)
            && assigned_to(plan, chunks[n - 1]) == Some(d) {
            1nat
        } else {
            0nat
        }
    }
}

/// `a` is addressed to one of `ws`.
pub open spec fn addressed_to(a: OutboundAction, ws: Seq<DeviceId>) -> bool {
    match a {
        OutboundAction::SendMessage(d, _) => ws.contains(d),
        OutboundAction::WanFetch { peer, .. } => ws.contains(peer),
        OutboundAction::TransferComplete(_, _) => false,
    }
}

/// `after` is the peer entry `before`, except that its failure count may
/// have grown.
pub open spec fn kept_entry(before: PeerEntry, after: PeerEntry) -> bool {
    &&& after.device_id == before.device_id
    &&& after.public_key == before.public_key
    &&& after.last_seen == before.last_seen
    &&& after.metrics.successes == before.metrics.successes
    &&& after.metrics.failures >= before.metrics.failures
}

proof fn lemma_requests_addressed(self_id: DeviceId, cs: Seq<ChunkId>, ws: Seq<DeviceId>)
    requires
        ws.len() > 0,
        ws[0] == self_id,
    ensures
        forall|i: int|
            0 <= i < request_actions(self_id, round_robin(cs, ws)).len() ==> addressed_to(
                #[trigger] request_actions(self_id, round_robin(cs, ws))[i],
                ws,
            ),
{
    assert forall|i: int| 0 <= i < request_actions(self_id, round_robin(cs, ws)).len() implies addressed_to(
        #[trigger] request_actions(self_id, round_robin(cs, ws))[i],
        ws,
    ) by {
        let m = i % (ws.len() as int);
        assert(round_robin(cs, ws)[i] == (cs[i], ws[m]));
        assert(ws.contains(ws[m]));
        assert(ws.contains(ws[0]));
    }
}

/// Some entry of `plan` gives out chunk `c`.
pub open spec fn plan_has(plan: Seq<(ChunkId, DeviceId)>, c: ChunkId) -> bool {
    exists|i: int| 0 <= i < plan.len() && plan[i].0 == c
}

/// Every chunk of `cs` is given out by some entry of `plan`.
pub open spec fn covers(plan: Seq<(ChunkId, DeviceId)>, cs: Seq<ChunkId>) -> bool {
    forall|k: int| 0 <= k < cs.len() ==> plan_has(plan, #[trigger] cs[k])
}

proof fn lemma_entries_kept(a: Seq<(ChunkId, DeviceId)>, peer: DeviceId)
    ensures
        forall|i: int| 0 <= i < a.len() && (#[trigger] a[i]).1 == peer ==> entries_of(a, peer).contains(a[i]),
        forall|i: int| 0 <= i < a.len() && (#[trigger] a[i]).1 != peer ==> entries_not_of(a, peer).contains(a[i]),
    decreases a.len(),
{
    if a.len() > 0 {
        let d = a.drop_last();
        lemma_entries_kept(d, peer);
        assert forall|i: int| 0 <= i < a.len() && (#[trigger] a[i]).1 == peer implies entries_of(a, peer).contains(
            a[i],
        ) by {
            let w = entries_of(a, peer);
            if i < d.len() {
                assert(d[i] == a[i]);
                let j = choose|j: int| 0 <= j < entries_of(d, peer).len() && entries_of(d, peer)[j] == d[i];
                assert(w[j] == entries_of(d, peer)[j]);
            } else {
                assert(w[w.len() - 1] == a[i]);
            }
        }
        assert forall|i: int| 0 <= i < a.len() && (#[trigger] a[i]).1 != peer implies entries_not_of(a, peer).contains(
            a[i],
        ) by {
            let w = entries_not_of(a, peer);
            if i < d.len() {
                assert(d[i] == a[i]);
                let j = choose|j: int| 0 <= j < entries_not_of(d, peer).len() && entries_not_of(d, peer)[j] == d[i];
                assert(w[j] == entries_not_of(d, peer)[j]);
            } else {
                assert(w[w.len() - 1] == a[i]);
            }
        }
    }
}

proof fn lemma_redeal_covers(plan: Seq<(ChunkId, DeviceId)>, gone: DeviceId, ws: Seq<DeviceId>, cs: Seq<ChunkId>)
    requires
        covers(plan, cs),
        ws.len() > 0,
    ensures
        covers(entries_not_of(plan, gone) + round_robin(chunks_of(plan, gone), ws), cs),
{
    lemma_entries_kept(plan, gone);
    let kept = entries_not_of(plan, gone);
    let moved = round_robin(chunks_of(plan, gone), ws);
    let np = kept + moved;
    assert forall|k: int| 0 <= k < cs.len() implies plan_has(np, #[trigger] cs[k]) by {
        let i = choose|i: int| 0 <= i < plan.len() && plan[i].0 == cs[k];
        if plan[i].1 != gone {
            let j = choose|j: int| 0 <= j < kept.len() && kept[j] == plan[i];
            assert(np[j] == kept[j]);
        } else {
            let eo = entries_of(plan, gone);
            let j = choose|j: int| 0 <= j < eo.len() && eo[j] == plan[i];
            assert(chunks_of(plan, gone)[j] == cs[k]);
            assert(moved[j].0 == cs[k]);
            assert(np[kept.len() + j] == moved[j]);
        }
    }
}

/// The plan of an active transfer gives out every chunk of the transfer.
pub proof fn lemma_plan_covers(core: PeaPodCore)
    requires
        core.wf(),
    ensures
        core.has_transfer() ==> covers(core.plan(), core.transfer().chunks),
{
}

/// `plan` holds exactly one entry for chunk `c`, giving it to `w`.
pub open spec fn planned_once(plan: Seq<(ChunkId, DeviceId)>, c: ChunkId, w: DeviceId) -> bool {
    &&& plan.contains((c, w))
    &&& forall|i: int| 0 <= i < plan.len() && (#[trigger] plan[i]).0 == c ==> plan[i] == (c, w)
}

/// The request actions that re-deal `gone`'s chunks of `plan` over `workers`.
pub open spec fn redeal_of(plan: Seq<(ChunkId, DeviceId)>, gone: DeviceId, workers: Seq<DeviceId>) -> Seq<(ChunkId, DeviceId)> {
    entries_not_of(plan, gone) + round_robin(chunks_of(plan, gone), workers)
}

/// The spec value of a chunk receipt's result.
pub open spec fn result_view(r: Result<Option<Vec<u8>>, ChunkError>) -> Result<Option<Seq<u8>>, ChunkError> {
    match r {
        Ok(Some(b)) => Ok(Some(b@)),
        Ok(None) => Ok(None),
        Err(e) => Err(e),
    }
}

/// How a delivery for the active transfer takes `before` to `after` with
/// `result`.
pub open spec fn received_as(
    before: PeaPodCore,
    after: PeaPodCore,
    id: ChunkId,
    hash: Seq<u8>,
    payload: Seq<u8>,
    result: Result<Option<Seq<u8>>, ChunkError>,
) -> bool {
    let v = before.transfer();
    let k = v.index(id);
    let stored = v.stored.update(k, Some(payload));
    let worker = assigned_to(before.plan(), id);
    &&& result == chunk_outcome(v, id, hash, payload)
    &&& result is Ok ==> after.peer_table().len() == before.peer_table().len() && after.peer_ids() == before.peer_ids()
    &&& (result is Ok && result->Ok_0 is Some) ==> {
        &&& admissible(v, id, hash, payload) && (TransferView { stored, ..v }).sized() ==> result->Ok_0->0.len()
            == v.total_length
        &&& unplanned(v, id, hash, payload) && v.sized() ==> result->Ok_0->0.len() == v.total_length
        &&& !after.has_transfer()
        &&& forall|i: int|
            0 <= i < before.peer_table().len() ==> credited(
                before.peer_table()[i],
                #[trigger] after.peer_table()[i],
                before.plan(),
            )
    }
    &&& unplanned(v, id, hash, payload) && !v.complete() ==> {
        &&& after.has_transfer()
        &&& after.transfer() == v
        &&& after.request_ticks() == before.request_ticks()
        &&& after.plan() == before.plan()
    }
    &&& (admissible(v, id, hash, payload) && result == Ok::<Option<Seq<u8>>, ChunkError>(None)) ==> {
        &&& after.has_transfer()
        &&& after.transfer() == (TransferView { stored, flying: v.flying.update(k, false), ..v })
        &&& after.request_ticks() == before.request_ticks().update(k, None)
        &&& after.plan() == before.plan()
    }
    &&& admissible(v, id, hash, payload) && v.stored[k] == Some(payload) && !v.complete() ==> after.transfer() == v
    &&& admissible(v, id, hash, payload) && v.stored[k] is Some && v.stored[k]->0 != payload ==> !after.has_transfer()
    &&& rejected(v, id, hash, payload) ==> {
        &&& after.has_transfer()
        &&& after.transfer() == (TransferView {
            flying: if k >= 0 {
                v.flying.update(k, false)
            } else {
                v.flying
            },
            ..v
        })
        &&& after.request_ticks() == (if k >= 0 {
            before.request_ticks().update(k, None)
        } else {
            before.request_ticks()
        })
        &&& (worker is Some && worker->0 != before.self_id()) ==> {
            &&& charged(before, after, worker->0)
            &&& forall|i: int|
                0 <= i < before.peer_table().len() && before.peer_table()[i].device_id != worker->0
                    ==> after.peer_table().contains(#[trigger] before.peer_table()[i])
            &&& after.integrity_failures(worker->0) >= before.thresholds_spec().isolation_threshold ==> after.plan()
                == redeal_of(before.plan(), worker->0, after.workers())
            &&& after.integrity_failures(worker->0) < before.thresholds_spec().isolation_threshold ==> after.plan()
                == before.plan()
        }
        &&& !(worker is Some && worker->0 != before.self_id()) ==> after.plan() == before.plan()
            && after.peer_table() == before.peer_table()
    }
}

/// The outcome that the chunk manager gives a delivery, as a coordinator
/// result.
pub open spec fn chunk_outcome(v: TransferView, id: ChunkId, hash: Seq<u8>, payload: Seq<u8>) -> Result<Option<Seq<u8>>, ChunkError> {
    let k = v.index(id);
    if rejected(v, id, hash, payload) {
        Err(ChunkError::IntegrityFailed)
    } else if !admissible(v, id, hash, payload) {
        if v.complete() {
            Ok(Some(assembled(v.stored)))
        } else {
            Ok(None)
        }
    } else if v.stored[k] is Some && v.stored[k]->0 != payload {
        Err(ChunkError::IntegrityFailed)
    } else if (TransferView { stored: v.stored.update(k, Some(payload)), ..v }).complete() {
        Ok(Some(assembled(v.stored.update(k, Some(payload)))))
    } else {
        Ok(None)
    }
}

impl PeaPodCore {
    /// As `on_chunk_received`, and also returns the requests that re-deal the
    /// chunks of a peer isolated by this delivery.
    #[verifier::rlimit(60)]
    pub fn receive_chunk(
        &mut self,
        transfer_id: [u8; 16],
        start: u64,
        end: u64,
        hash: [u8; 32],
        payload: Vec<u8>,
    ) -> (r: (Result<Option<Vec<u8>>, ChunkError>, Vec<OutboundAction>))
        requires
            old(self).wf(),
        ensures
            final(self).wf(),
            keeps_settings(*old(self), *final(self)),
            final(self).self_id() == old(self).self_id(),
            final(self).ticks() == old(self).ticks(),
            final(self).isolated_ids().len() >= old(self).isolated_ids().len(),
            !old(self).has_transfer() || old(self).transfer().transfer_id != transfer_id ==> r.0 == Err::<
                Option<Vec<u8>>,
                ChunkError,
            >(ChunkError::UnknownTransfer) && *final(self) == *old(self) && r.1@.len() == 0,
            old(self).has_transfer() && old(self).transfer().transfer_id == transfer_id ==> {
                let id = ChunkId { transfer_id, start, end };
                let worker = assigned_to(old(self).plan(), id);
                &&& received_as(*old(self), *final(self), id, hash@, payload@, result_view(r.0))
                &&& r.1@ == (if rejected(old(self).transfer(), id, hash@, payload@) && worker is Some && worker->0
                    != old(self).self_id() && final(self).integrity_failures(worker->0)
                    >= old(self).thresholds_spec().isolation_threshold {
                    request_actions(
                        old(self).self_id(),
                        round_robin(chunks_of(old(self).plan(), worker->0), final(self).workers()),
                    )
                } else {
                    Seq::empty()
                })
            },
    {
        let self_id = self.keypair.device_id();
        match self.active_transfer.take() {
            None => (Err(ChunkError::UnknownTransfer), Vec::new()),
            Some(mut a) => {
                let current = a.state.transfer_id();
                if !bytes_equal(current.as_slice(), transfer_id.as_slice()) {
                    proof {
                        if current == transfer_id {
                            assert(current@ == transfer_id@);
                        }
                    }
                    self.active_transfer = Some(a);
                    return (Err(ChunkError::UnknownTransfer), Vec::new());
                }
                proof {
                    assert(current =~= transfer_id);
                }
                let id = ChunkId { transfer_id, start, end };
                let ghost v = a.state@;
                let ghost old_ticks = a.request_ticks@;
                match a.state.position(&id) {
                    Some(k) => {
                        a.request_ticks.set(k, None);
                    },
                    None => {},
                }
                let assigned = assigned_worker(a.assignment.as_slice(), &id);
                let outcome = on_chunk_data_received(&mut a.state, transfer_id, start, end, hash, payload);
                match outcome {
                    ChunkReceiveResult::IntegrityFailed => {
                        self.active_transfer = Some(a);
                        match assigned {
                            Some(p) => {
                                if p != self_id {
                                    let ghost mid = self.peer_table();
                                    assert(mid == old(self).peer_table());
                                    let actions = self.charge_integrity_failure(p);
                                    proof {
                                        assert forall|i: int|
                                            0 <= i < mid.len() && mid[i].device_id != p implies self.peer_table().contains(
                                            #[trigger] mid[i],
                                        ) by {}
                                    }
                                    return (Err(ChunkError::IntegrityFailed), actions);
                                }
                            },
                            None => {},
                        }
                        (Err(ChunkError::IntegrityFailed), Vec::new())
                    },
                    ChunkReceiveResult::Poisoned => (Err(ChunkError::IntegrityFailed), Vec::new()),
                    ChunkReceiveResult::InProgress => {
                        self.active_transfer = Some(a);
                        (Ok(None), Vec::new())
                    },
                    ChunkReceiveResult::Complete(bytes) => {
                        self.record_successes(&a.assignment);
                        (Ok(Some(bytes)), Vec::new())
                    },
                }
            },
        }
    }

    /// Handles a chunk delivered for the active transfer. It is verified
    /// against its SHA-256 digest and stored; the request awaiting it is
    /// cleared. A failed check charges the peer that the plan named for the
    /// chunk, isolating it at the threshold; a chunk re-delivered with other
    /// content poisons the transfer, which is dropped. The last missing chunk
    /// completes the transfer: it yields the reassembled bytes, every peer
    /// that the plan named is credited a success, and the transfer ends.
    pub fn on_chunk_received(
        &mut self,
        transfer_id: [u8; 16],
        start: u64,
        end: u64,
        hash: [u8; 32],
        payload: Vec<u8>,
    ) -> (r: Result<Option<Vec<u8>>, ChunkError>)
        requires
            old(self).wf(),
        ensures
            final(self).wf(),
            keeps_settings(*old(self), *final(self)),
            final(self).ticks() == old(self).ticks(),
            !old(self).has_transfer() || old(self).transfer().transfer_id != transfer_id ==> r == Err::<
                Option<Vec<u8>>,
                ChunkError,
            >(ChunkError::UnknownTransfer) && *final(self) == *old(self),
            old(self).has_transfer() && old(self).transfer().transfer_id == transfer_id ==> received_as(
                *old(self),
                *final(self),
                ChunkId { transfer_id, start, end },
                hash@,
                payload@,
                result_view(r),
            ),
    {
        self.receive_chunk(transfer_id, start, end, hash, payload).0
    }
}

/// A peer heard of at most `timeout` ticks before `now` is alive.
pub open spec fn is_alive(e: PeerEntry, now: u64, timeout: u64) -> bool {
    now <= e.last_seen || now - e.last_seen <= timeout
}

/// The peers alive at `now`, in order.
pub open spec fn alive_peers(ps: Seq<PeerEntry>, now: u64, timeout: u64) -> Seq<PeerEntry>
    decreases ps.len(),
{
    if ps.len() == 0 {
        Seq::empty()
    } else if is_alive(ps.last(), now, timeout) {
        alive_peers(ps.drop_last(), now, timeout).push(ps.last())
    } else {
        alive_peers(ps.drop_last(), now, timeout)
    }
}

/// A request made at `t` has timed out at `now`.
pub open spec fn timed_out(t: Option<u64>, now: u64, timeout: u64) -> bool {
    t matches Some(at) && now > at && now - at > timeout
}

proof fn lemma_alive_peers(ps: Seq<PeerEntry>, now: u64, timeout: u64)
    ensures
        forall|i: int|
            0 <= i < alive_peers(ps, now, timeout).len() ==> ps.contains(#[trigger] alive_peers(ps, now, timeout)[i]),
        forall|i: int|
            0 <= i < ps.len() && is_alive(#[trigger] ps[i], now, timeout) ==> alive_peers(ps, now, timeout).contains(ps[i]),
        forall|i: int|
            0 <= i < ps.len() && !is_alive(#[trigger] ps[i], now, timeout) ==> !alive_peers(ps, now, timeout).contains(
                ps[i],
            ),
    decreases ps.len(),
{
    if ps.len() > 0 {
        let d = ps.drop_last();
        lemma_alive_peers(d, now, timeout);
        let w = alive_peers(ps, now, timeout);
        let wd = alive_peers(d, now, timeout);
        assert forall|i: int| 0 <= i < w.len() implies ps.contains(#[trigger] w[i]) by {
            if i < wd.len() {
                assert(w[i] == wd[i]);
                let j = choose|j: int| 0 <= j < d.len() && d[j] == wd[i];
                assert(ps[j] == d[j]);
            } else {
                assert(ps[ps.len() - 1] == w[i]);
            }
        }
        assert forall|i: int| 0 <= i < ps.len() && is_alive(#[trigger] ps[i], now, timeout) implies w.contains(ps[i]) by {
            if i < d.len() {
                assert(d[i] == ps[i]);
                let j = choose|j: int| 0 <= j < wd.len() && wd[j] == d[i];
                assert(w[j] == wd[j]);
            } else {
                assert(w[w.len() - 1] == ps[i]);
            }
        }
        assert forall|i: int| 0 <= i < ps.len() && !is_alive(#[trigger] ps[i], now, timeout) implies !w.contains(ps[i]) by {
            if w.contains(ps[i]) {
                let j = choose|j: int| 0 <= j < w.len() && w[j] == ps[i];
                if j < wd.len() {
                    assert(wd[j] == w[j]);
                    if i < d.len() {
                        assert(d[i] == ps[i]);
                    } else {
                        let m = choose|m: int| 0 <= m < d.len() && d[m] == wd[j];
                        assert(ps[m] == d[m]);
                    }
                }
            }
        }
    }
}

proof fn lemma_alive_peers_unique(ps: Seq<PeerEntry>, now: u64, timeout: u64)
    requires
        forall|i: int, j: int|
            0 <= i < ps.len() && 0 <= j < ps.len() && (#[trigger] ps[i]).device_id == (#[trigger] ps[j]).device_id
                ==> i == j,
    ensures
        forall|i: int, j: int|
            0 <= i < alive_peers(ps, now, timeout).len() && 0 <= j < alive_peers(ps, now, timeout).len()
                && (#[trigger] alive_peers(ps, now, timeout)[i]).device_id == (#[trigger] alive_peers(
                ps,
                now,
                timeout,
            )[j]).device_id ==> i == j,
    decreases ps.len(),
{
    if ps.len() > 0 {
        let d = ps.drop_last();
        lemma_alive_peers_unique(d, now, timeout);
        lemma_alive_peers(d, now, timeout);
        let w = alive_peers(ps, now, timeout);
        let wd = alive_peers(d, now, timeout);
        assert forall|i: int, j: int|
            0 <= i < w.len() && 0 <= j < w.len() && (#[trigger] w[i]).device_id == (#[trigger] w[j]).device_id
                implies i == j by {
            if i < wd.len() && j < wd.len() {
                assert(w[i] == wd[i] && w[j] == wd[j]);
            } else if i < wd.len() {
                let k = choose|k: int| 0 <= k < d.len() && d[k] == wd[i];
                assert(ps[k] == d[k]);
                assert(ps[ps.len() - 1].device_id == ps[k].device_id);
            } else if j < wd.len() {
                let k = choose|k: int| 0 <= k < d.len() && d[k] == wd[j];
                assert(ps[k] == d[k]);
                assert(ps[ps.len() - 1].device_id == ps[k].device_id);
            }
        }
    }
}

/// A worker other than `avoid`, round-robin by `counter`; `workers[0]` when
/// there is none other.
fn pick_worker(workers: &Vec<DeviceId>, avoid: Option<DeviceId>, counter: usize) -> (r: DeviceId)
    requires
        workers@.len() > 0,
    ensures
        workers@.contains(r),
        avoid is Some && workers@[0] != avoid->0 ==> r != avoid->0,
{
    let mut others: Vec<DeviceId> = Vec::new();
    let mut i: usize = 0;
    while i < workers.len()
        invariant
            0 <= i <= workers@.len(),
            workers@.len() > 0,
            forall|j: int| 0 <= j < others@.len() ==> workers@.contains(#[trigger] others@[j]),
            forall|j: int| 0 <= j < others@.len() ==> (avoid is Some ==> #[trigger] others@[j] != avoid->0),
            i > 0 && avoid is Some && workers@[0] != avoid->0 ==> others@.len() > 0,
        decreases workers@.len() - i,
    {
        let w = workers[i];
        let keep = match avoid {
            Some(x) => w != x,
            None => true,
        };
        if keep {
            others.push(w);
            proof {
                assert(workers@[i as int] == w);
            }
        }
        i = i + 1;
    }
    if others.len() == 0 {
        proof {
            assert(workers@[0] == workers@[0]);
        }
        workers[0]
    } else {
        others[counter % others.len()]
    }
}

/// The assignment with every entry for `chunk` replaced by one entry
/// `(chunk, worker)` at the end.
fn reassign_chunk(plan: &Vec<(ChunkId, DeviceId)>, chunk: ChunkId, worker: DeviceId) -> (r: Vec<(ChunkId, DeviceId)>)
    ensures
        forall|j: int| 0 <= j < r@.len() - 1 ==> plan@.contains(#[trigger] r@[j]) && r@[j].0 != chunk,
        r@.len() > 0 && r@.last() == (chunk, worker),
        assigned_to(r@, chunk) == Some(worker),
        forall|c: ChunkId| c != chunk ==> #[trigger] assigned_to(r@, c) == assigned_to(plan@, c),
        planned_once(r@, chunk, worker),
        forall|j: int| 0 <= j < plan@.len() && (#[trigger] plan@[j]).0 != chunk ==> r@.contains(plan@[j]),
        forall|c: ChunkId, d: DeviceId| c != chunk && #[trigger] planned_once(plan@, c, d) ==> planned_once(r@, c, d),
{
    let mut out: Vec<(ChunkId, DeviceId)> = Vec::new();
    let mut i: usize = 0;
    while i < plan.len()
        invariant
            0 <= i <= plan@.len(),
            forall|j: int| 0 <= j < out@.len() ==> plan@.contains(#[trigger] out@[j]) && out@[j].0 != chunk,
            forall|c: ChunkId| c != chunk ==> #[trigger] assigned_to(out@, c) == assigned_to(plan@.subrange(0, i as int), c),
            forall|j: int| 0 <= j < i && (#[trigger] plan@[j]).0 != chunk ==> out@.contains(plan@[j]),
        decreases plan@.len() - i,
    {
        let e = plan[i];
        let ghost before = out@;
        proof {
            assert(plan@.subrange(0, i as int + 1).drop_last() =~= plan@.subrange(0, i as int));
        }
        if e.0 != chunk {
            out.push(e);
            proof {
                assert(plan@[i as int] == e);
                assert(out@.drop_last() =~= before);
                assert(out@[out@.len() - 1] == e);
                assert forall|j: int| 0 <= j < i && (#[trigger] plan@[j]).0 != chunk implies out@.contains(plan@[j]) by {
                    let m = choose|m: int| 0 <= m < before.len() && before[m] == plan@[j];
                    assert(out@[m] == before[m]);
                }
            }
        }
        proof {
            let p1 = plan@.subrange(0, i as int + 1);
            assert forall|c: ChunkId| c != chunk implies #[trigger] assigned_to(out@, c) == assigned_to(p1, c) by {
                assert(p1.drop_last() =~= plan@.subrange(0, i as int));
                assert(p1.last() == e);
                assert(assigned_to(before, c) == assigned_to(plan@.subrange(0, i as int), c));
                if e.0 != chunk {
                    assert(out@.drop_last() =~= before);
                    assert(out@.last() == e);
                }
            }
        }
        i = i + 1;
    }
    proof {
        assert(plan@.subrange(0, plan@.len() as int) =~= plan@);
    }
    let ghost kept = out@;
    out.push((chunk, worker));
    proof {
        assert(out@.drop_last() =~= kept);
        assert forall|c: ChunkId| c != chunk implies #[trigger] assigned_to(out@, c) == assigned_to(plan@, c) by {
            assert(assigned_to(kept, c) == assigned_to(plan@, c));
        }
        assert(out@[out@.len() - 1] == (chunk, worker));
        assert forall|j: int| 0 <= j < plan@.len() && (#[trigger] plan@[j]).0 != chunk implies out@.contains(plan@[j]) by {
            let m = choose|m: int| 0 <= m < kept.len() && kept[m] == plan@[j];
            assert(out@[m] == kept[m]);
        }
        assert forall|c: ChunkId, d: DeviceId| c != chunk && #[trigger] planned_once(plan@, c, d) implies planned_once(
            out@,
            c,
            d,
        ) by {
            let m = choose|m: int| 0 <= m < plan@.len() && plan@[m] == (c, d);
            assert(plan@[m].0 != chunk);
            assert forall|i: int| 0 <= i < out@.len() && (#[trigger] out@[i]).0 == c implies out@[i] == (c, d) by {
                if i < out@.len() - 1 {
                    let q = choose|q: int| 0 <= q < plan@.len() && plan@[q] == out@[i];
                    assert(plan@[q].0 == c);
                }
            }
        }
    }
    out
}

impl PeaPodCore {
    /// Charges a timed-out request to `peer`'s metrics.
    fn charge_timeout(&mut self, peer: DeviceId)
        requires
            old(self).trust.wf(),
            old(self).base_wf(),
        ensures
            final(self).trust.wf(),
            final(self).base_wf(),
            final(self).peer_ids() == old(self).peer_ids(),
            old(self).differs_in_peers_only(*final(self)),
            final(self).peer_table().len() == old(self).peer_table().len(),
            forall|i: int|
                0 <= i < old(self).peer_table().len() ==> kept_entry(
                    old(self).peer_table()[i],
                    #[trigger] final(self).peer_table()[i],
                ),
            forall|i: int|
                0 <= i < old(self).peer_table().len() ==> (#[trigger] final(self).peer_table()[i]).metrics.failures
                    == (if old(self).peer_table()[i].device_id == peer && old(self).peer_table()[i].metrics.failures
                    < u64::MAX {
                    (old(self).peer_table()[i].metrics.failures + 1) as u64
                } else {
                    old(self).peer_table()[i].metrics.failures
                }),
    {
        let ghost before = self.peers@;
        match self.find_peer(&peer) {
            Some(i) => {
                let mut e = self.peers[i];
                e.metrics.record_failure();
                self.peers.set(i, e);
                proof {
                    assert(ids_of(self.peers@) =~= ids_of(before));
                    assert forall|x: int, y: int|
                        0 <= x < self.peers@.len() && 0 <= y < self.peers@.len() && (#[trigger] self.peers@[x]).device_id
                            == (#[trigger] self.peers@[y]).device_id implies x == y by {
                        assert(ids_of(self.peers@)[x] == ids_of(before)[x]);
                        assert(ids_of(self.peers@)[y] == ids_of(before)[y]);
                        assert(before[x].device_id == before[y].device_id);
                    }
                    assert forall|x: int| 0 <= x < self.peers@.len() implies (#[trigger] self.peers@[x]).device_id
                        != self.self_id() && !self.isolated@.contains(self.peers@[x].device_id) by {
                        assert(ids_of(self.peers@)[x] == ids_of(before)[x]);
                        assert(before[x].device_id == self.peers@[x].device_id);
                    }
                    assert forall|x: int| 0 <= x < before.len() && x != i implies before[x].device_id != peer by {
                        if before[x].device_id == peer {
                            assert(before[x].device_id == before[i as int].device_id);
                        }
                    }
                }
            },
            None => {
                proof {
                    assert forall|x: int| 0 <= x < before.len() implies before[x].device_id != peer by {
                        assert(ids_of(before)[x] == before[x].device_id);
                    }
                }
            },
        }
    }

    /// Evicts the peers not heard of within the heartbeat timeout and
    /// re-deals their chunks.
    fn expire_peers(&mut self, now: u64) -> (r: Vec<OutboundAction>)
        requires
            old(self).wf(),
        ensures
            final(self).wf(),
            !old(self).has_transfer() ==> r@.len() == 0,
            keeps_settings(*old(self), *final(self)),
            final(self).peer_table() == alive_peers(
                old(self).peer_table(),
                now,
                old(self).thresholds_spec().heartbeat_timeout_ticks,
            ),
            final(self).self_id() == old(self).self_id(),
            final(self).thresholds_spec() == old(self).thresholds_spec(),
            final(self).isolated_ids() == old(self).isolated_ids(),
            final(self).ticks() == old(self).ticks(),
            final(self).has_transfer() == old(self).has_transfer(),
            old(self).has_transfer() ==> final(self).transfer() == old(self).transfer()
                && final(self).request_ticks() == old(self).request_ticks(),
            forall|i: int| 0 <= i < r@.len() ==> addressed_to(#[trigger] r@[i], final(self).workers()),
    {
        let hb = self.thresholds.heartbeat_timeout_ticks;
        let ghost before = self.peers@;
        let ghost old_workers = self.workers();
        let mut kept: Vec<PeerEntry> = Vec::new();
        let mut expired: Vec<DeviceId> = Vec::new();
        let mut i: usize = 0;
        while i < self.peers.len()
            invariant
                0 <= i <= before.len(),
                self.peers@ == before,
                kept@ == alive_peers(before.subrange(0, i as int), now, hb),
                forall|j: int| 0 <= j < i && !is_alive(#[trigger] before[j], now, hb) ==> expired@.contains(before[j].device_id),
            decreases before.len() - i,
        {
            proof {
                assert(before.subrange(0, i as int + 1).drop_last() =~= before.subrange(0, i as int));
            }
            let e = self.peers[i];
            if now.saturating_sub(e.last_seen) > hb {
                let ghost old_exp = expired@;
                expired.push(e.device_id);
                proof {
                    assert forall|j: int| 0 <= j < i && !is_alive(#[trigger] before[j], now, hb) implies expired@.contains(
                        before[j].device_id,
                    ) by {
                        let m = choose|m: int| 0 <= m < old_exp.len() && old_exp[m] == before[j].device_id;
                        assert(expired@[m] == old_exp[m]);
                    }
                    assert(expired@[expired@.len() - 1] == e.device_id);
                }
            } else {
                kept.push(e);
            }
            i = i + 1;
        }
        proof {
            assert(before.subrange(0, before.len() as int) =~= before);
            lemma_alive_peers(before, now, hb);
            lemma_alive_peers_unique(before, now, hb);
        }
        self.peers = kept;
        proof {
            let after = self.peers@;
            assert forall|x: int| 0 <= x < after.len() implies (#[trigger] after[x]).device_id != self.self_id()
                && !self.isolated@.contains(after[x].device_id) by {
                let k = choose|k: int| 0 <= k < before.len() && before[k] == after[x];
            }
            if let Some(a) = &self.active_transfer {
                let wp = self.workers() + expired@.subrange(0, expired@.len() as int);
                assert forall|j: int| 0 <= j < a.assignment@.len() implies wp.contains(
                    (#[trigger] a.assignment@[j]).1,
                ) && a.state@.chunks.contains(a.assignment@[j].0) by {
                    let d = a.assignment@[j].1;
                    assert(old_workers.contains(d));
                    let m = choose|m: int| 0 <= m < old_workers.len() && old_workers[m] == d;
                    if m == 0 {
                        assert(wp[0] == d);
                    } else {
                        let e = before[m - 1];
                        assert(ids_of(before)[m - 1] == e.device_id);
                        if is_alive(e, now, hb) {
                            assert(after.contains(e));
                            let n = choose|n: int| 0 <= n < after.len() && after[n] == e;
                            assert(wp[n + 1] == d);
                        } else {
                            assert(expired@.contains(e.device_id));
                            let n = choose|n: int| 0 <= n < expired@.len() && expired@[n] == e.device_id;
                            assert(wp[self.workers().len() + n] == d);
                        }
                    }
                }
            }
        }
        let mut actions: Vec<OutboundAction> = Vec::new();
        let mut j: usize = 0;
        while j < expired.len()
            invariant
                0 <= j <= expired@.len(),
                self.trust.wf(),
                self.base_wf(),
                self.peers@ == alive_peers(before, now, hb),
                self.keypair == old(self).keypair,
                self.thresholds == old(self).thresholds,
                self.isolated == old(self).isolated,
                self.tick_count == old(self).tick_count,
                self.active_transfer is Some == old(self).active_transfer is Some,
                old(self).has_transfer() ==> self.transfer() == old(self).transfer()
                    && self.request_ticks() == old(self).request_ticks(),
                self.active_transfer matches Some(a) ==> assigned_within(
                    a.assignment@,
                    self.workers() + expired@.subrange(j as int, expired@.len() as int),
                    a.state@.chunks,
                ),
                forall|i: int| 0 <= i < actions@.len() ==> addressed_to(#[trigger] actions@[i], self.workers()),
                !old(self).has_transfer() ==> actions@.len() == 0,
                self.active_transfer matches Some(a) ==> covers(a.assignment@, a.state@.chunks),
            decreases expired@.len() - j,
        {
            let gone = expired[j];
            let ghost pending = expired@.subrange(j as int + 1, expired@.len() as int);
            proof {
                if let Some(a) = &self.active_transfer {
                    let from = self.workers() + expired@.subrange(j as int, expired@.len() as int);
                    let to = self.workers() + pending.push(gone);
                    assert forall|q: int| 0 <= q < a.assignment@.len() implies to.contains(
                        (#[trigger] a.assignment@[q]).1,
                    ) && a.state@.chunks.contains(a.assignment@[q].0) by {
                        let d = a.assignment@[q].1;
                        assert(from.contains(d));
                        let m = choose|m: int| 0 <= m < from.len() && from[m] == d;
                        let wl = self.workers().len() as int;
                        if m < wl {
                            assert(to[m] == d);
                        } else if m == wl {
                            assert(to[to.len() - 1] == d);
                        } else {
                            assert(to[m - 1] == d);
                        }
                    }
                }
            }
            let ghost ab = actions@;
            let mut more = self.redistribute(gone, Ghost(pending));
            let ghost mb = more@;
            actions.append(&mut more);
            proof {
                assert forall|i: int| 0 <= i < actions@.len() implies addressed_to(#[trigger] actions@[i], self.workers()) by {
                    if i < ab.len() {
                        assert(actions@[i] == ab[i]);
                    } else {
                        assert(actions@[i] == mb[i - ab.len()]);
                    }
                }
            }
            j = j + 1;
        }
        proof {
            if let Some(a) = &self.active_transfer {
                assert(self.workers() + expired@.subrange(expired@.len() as int, expired@.len() as int) =~= self.workers());
            }
        }
        actions
    }
}

impl PeaPodCore {
    /// Takes every timed-out chunk request out of flight, charges the worker
    /// it was assigned to, and re-deals the chunk round-robin over the other
    /// workers, returning the new requests.
    #[verifier::rlimit(60)]
    fn expire_requests(&mut self, now: u64, charged_plan: &Vec<(ChunkId, DeviceId)>) -> (r: Vec<OutboundAction>)
        requires
            old(self).wf(),
        ensures
            final(self).wf(),
            !old(self).has_transfer() ==> r@.len() == 0,
            keeps_settings(*old(self), *final(self)),
            !old(self).has_transfer() ==> final(self).peer_table() == old(self).peer_table(),
            old(self).has_transfer() ==> forall|i: int|
                0 <= i < old(self).peer_table().len() ==> (#[trigger] final(self).peer_table()[i]).metrics.failures
                    == bump(
                    old(self).peer_table()[i].metrics.failures,
                    timeout_charges(
                        charged_plan@,
                        old(self).transfer().chunks,
                        old(self).request_ticks(),
                        now,
                        old(self).thresholds_spec().chunk_timeout_ticks,
                        old(self).peer_table()[i].device_id,
                        old(self).transfer().chunks.len() as int,
                    ),
                ),
            final(self).peer_table().len() == old(self).peer_table().len(),
            forall|i: int|
                0 <= i < old(self).peer_table().len() ==> kept_entry(
                    old(self).peer_table()[i],
                    #[trigger] final(self).peer_table()[i],
                ),
            forall|i: int| 0 <= i < r@.len() ==> addressed_to(#[trigger] r@[i], final(self).workers()),
            final(self).peer_ids() == old(self).peer_ids(),
            final(self).self_id() == old(self).self_id(),
            final(self).thresholds_spec() == old(self).thresholds_spec(),
            final(self).isolated_ids() == old(self).isolated_ids(),
            final(self).ticks() == old(self).ticks(),
            final(self).has_transfer() == old(self).has_transfer(),
            old(self).has_transfer() ==> {
                &&& final(self).transfer().chunks == old(self).transfer().chunks
                &&& final(self).transfer().stored == old(self).transfer().stored
                &&& forall|k: int|
                    0 <= k < old(self).transfer().chunks.len() ==> if timed_out(
                        #[trigger] old(self).request_ticks()[k],
                        now,
                        old(self).thresholds_spec().chunk_timeout_ticks,
                    ) {
                        final(self).request_ticks()[k] is None && !final(self).transfer().flying[k]
                            && assigned_to(final(self).plan(), old(self).transfer().chunks[k]) is Some
                            && final(self).workers().contains(
                            assigned_to(final(self).plan(), old(self).transfer().chunks[k])->0,
                        ) && planned_once(
                            final(self).plan(),
                            old(self).transfer().chunks[k],
                            assigned_to(final(self).plan(), old(self).transfer().chunks[k])->0,
                        )
                    } else {
                        final(self).request_ticks()[k] == old(self).request_ticks()[k]
                            && final(self).transfer().flying[k] == old(self).transfer().flying[k]
                    }
            },
    {
        let ct = self.thresholds.chunk_timeout_ticks;
        let self_id = self.keypair.device_id();
        let workers = self.worker_list();
        let mut actions: Vec<OutboundAction> = Vec::new();
        match self.active_transfer.take() {
            None => {},
            Some(a) => {
                let ActiveTransfer { mut state, mut assignment, mut request_ticks } = a;
                let ghost v0 = state@;
                let ghost t0 = request_ticks@;
                let n = request_ticks.len();
                let mut timed: Vec<ChunkId> = Vec::new();
                let mut flags: Vec<bool> = Vec::new();
                let mut k: usize = 0;
                while k < n
                    invariant
                        0 <= k <= n,
                        flags@.len() == k,
                        forall|j: int| 0 <= j < k ==> #[trigger] flags@[j] == timed_out(t0[j], now, ct),
                        n == t0.len(),
                        n == v0.chunks.len(),
                        state@.wf(),
                        state@.chunks == v0.chunks,
                        state@.stored == v0.stored,
                        state@.transfer_id == v0.transfer_id,
                        state@.total_length == v0.total_length,
                        request_ticks@.len() == n,
                        state@.flying.len() == n,
                        forall|j: int| 0 <= j < timed@.len() ==> v0.chunks.contains(#[trigger] timed@[j]),
                        forall|j: int| 0 <= j < k && timed_out(#[trigger] t0[j], now, ct) ==> timed@.contains(v0.chunks[j]),
                        forall|j: int|
                            0 <= j < k ==> if timed_out(#[trigger] t0[j], now, ct) {
                                request_ticks@[j] is None && !state@.flying[j]
                            } else {
                                request_ticks@[j] == t0[j] && state@.flying[j] == v0.flying[j]
                            },
                        v0.flying.len() == n,
                        forall|j: int| k <= j < n ==> #[trigger] request_ticks@[j] == t0[j],
                        forall|j: int| k <= j < n ==> #[trigger] state@.flying[j] == v0.flying[j],
                    decreases n - k,
                {
                    let expired = match request_ticks[k] {
                        Some(t) => now > t && now - t > ct,
                        None => false,
                    };
                    assert(request_ticks@[k as int] == t0[k as int]);
                    assert(expired == timed_out(t0[k as int], now, ct));
                    flags.push(expired);
                    if expired {
                        let ghost rt = request_ticks@;
                        request_ticks.set(k, None);
                        let c = state.chunk_ids()[k];
                        proof {
                            lemma_index_unique(state@.chunks, state@.transfer_id, state@.total_length as nat, k as int);
                        }
                        let ghost fl = state@.flying;
                        state.mark_failed(c);
                        let ghost tb = timed@;
                        timed.push(c);
                        proof {
                            assert forall|j: int| 0 <= j < k + 1 && timed_out(#[trigger] t0[j], now, ct) implies timed@.contains(
                                v0.chunks[j],
                            ) by {
                                if j < k {
                                    let m = choose|m: int| 0 <= m < tb.len() && tb[m] == v0.chunks[j];
                                    assert(timed@[m] == tb[m]);
                                } else {
                                    assert(timed@[timed@.len() - 1] == c);
                                }
                            }
                            assert(state@.flying == fl.update(k as int, false));
                            assert(request_ticks@ == rt.update(k as int, None));
                            assert(v0.chunks[k as int] == c);
                            assert forall|j: int| 0 <= j < k + 1 implies if timed_out(#[trigger] t0[j], now, ct) {
                                request_ticks@[j] is None && !state@.flying[j]
                            } else {
                                request_ticks@[j] == t0[j] && state@.flying[j] == v0.flying[j]
                            } by {
                                if j < k {
                                    assert(request_ticks@[j] == rt[j]);
                                    assert(state@.flying[j] == fl[j]);
                                }
                            }
                        }
                    }
                    k = k + 1;
                }
                let ghost peers0 = self.peers@;
                let mut counter: usize = 0;
                while counter < timed.len()
                    invariant
                        0 <= counter <= timed@.len(),
                        forall|j: int| 0 <= j < timed@.len() ==> v0.chunks.contains(#[trigger] timed@[j]),
                        workers@ == self.workers(),
                        workers@.len() > 0,
                        self.trust.wf(),
                        self.base_wf(),
                        self.active_transfer is None,
                        self.peer_ids() == old(self).peer_ids(),
                        self.keypair == old(self).keypair,
                        self.thresholds == old(self).thresholds,
                        self.isolated == old(self).isolated,
                        self.tick_count == old(self).tick_count,
                        assigned_within(assignment@, workers@, v0.chunks),
                        covers(assignment@, v0.chunks),
                        forall|j: int|
                            0 <= j < counter ==> assigned_to(assignment@, #[trigger] timed@[j]) is Some && workers@.contains(
                                assigned_to(assignment@, timed@[j])->0,
                            ) && planned_once(assignment@, timed@[j], assigned_to(assignment@, timed@[j])->0),
                        self.peers@ == peers0,
                        peers0 == old(self).peers@,
                        forall|i: int| 0 <= i < peers0.len() ==> kept_entry(peers0[i], #[trigger] self.peers@[i]),
                        forall|i: int| 0 <= i < actions@.len() ==> addressed_to(#[trigger] actions@[i], workers@),
                    decreases timed@.len() - counter,
                {
                    let c = timed[counter];
                    let ghost pb = assignment@;
                    let ghost pp = self.peers@;
                    let (plan, action) = self.redeal_timed_out(&assignment, c, counter, &workers, Ghost(v0.chunks));
                    assignment = plan;
                    proof {
                        assert forall|j: int|
                            0 <= j < counter + 1 implies assigned_to(assignment@, #[trigger] timed@[j]) is Some
                            && workers@.contains(assigned_to(assignment@, timed@[j])->0) && planned_once(
                            assignment@,
                            timed@[j],
                            assigned_to(assignment@, timed@[j])->0,
                        ) by {
                            if timed@[j] != c {
                                assert(assigned_to(assignment@, timed@[j]) == assigned_to(pb, timed@[j]));
                                assert(planned_once(pb, timed@[j], assigned_to(pb, timed@[j])->0));
                            }
                        }
                        assert forall|i: int| 0 <= i < peers0.len() implies kept_entry(peers0[i], #[trigger] self.peers@[i]) by {
                            assert(kept_entry(pp[i], self.peers@[i]));
                        }
                    }
                    let ghost ab = actions@;
                    actions.push(action);
                    proof {
                        assert forall|i: int| 0 <= i < actions@.len() implies addressed_to(#[trigger] actions@[i], workers@) by {
                            if i < ab.len() {
                                assert(actions@[i] == ab[i]);
                            }
                        }
                    }
                    counter = counter + 1;
                }
                proof {
                    assert forall|j: int| 0 <= j < n && timed_out(#[trigger] t0[j], now, ct) implies assigned_to(
                        assignment@,
                        v0.chunks[j],
                    ) is Some && workers@.contains(assigned_to(assignment@, v0.chunks[j])->0) && planned_once(
                        assignment@,
                        v0.chunks[j],
                        assigned_to(assignment@, v0.chunks[j])->0,
                    ) by {
                        let m = choose|m: int| 0 <= m < timed@.len() && timed@[m] == v0.chunks[j];
                        assert(assigned_to(assignment@, timed@[m]) is Some);
                        assert(planned_once(assignment@, timed@[m], assigned_to(assignment@, timed@[m])->0));
                    }
                }
                let ghost peers1 = self.peers@;
                let mut q: usize = 0;
                while q < n
                    invariant
                        0 <= q <= n,
                        n == v0.chunks.len(),
                        n == t0.len(),
                        flags@.len() == n,
                        forall|j: int| 0 <= j < n ==> #[trigger] flags@[j] == timed_out(t0[j], now, ct),
                        state@.chunks == v0.chunks,
                        self.trust.wf(),
                        self.base_wf(),
                        self.active_transfer is None,
                        self.peer_ids() == old(self).peer_ids(),
                        self.keypair == old(self).keypair,
                        self.thresholds == old(self).thresholds,
                        self.isolated == old(self).isolated,
                        self.tick_count == old(self).tick_count,
                        self.peers@.len() == peers1.len(),
                        self_id == self.self_id(),
                        forall|i: int| 0 <= i < peers1.len() ==> peers1[i].device_id != self_id,
                        forall|i: int| 0 <= i < peers1.len() ==> kept_entry(peers1[i], #[trigger] self.peers@[i]),
                        forall|i: int|
                            0 <= i < peers1.len() ==> (#[trigger] self.peers@[i]).metrics.failures == bump(
                                peers1[i].metrics.failures,
                                timeout_charges(charged_plan@, v0.chunks, t0, now, ct, peers1[i].device_id, q as int),
                            ),
                    decreases n - q,
                {
                    let ghost pp = self.peers@;
                    let flagged = flags[q];
                    let c = state.chunk_ids()[q];
                    let owner = assigned_worker(charged_plan.as_slice(), &c);
                    let ghost mut who: Option<DeviceId> = None;
                    if flagged {
                        match owner {
                            Some(p) => {
                                if p != self_id {
                                    self.charge_timeout(p);
                                    proof {
                                        who = Some(p);
                                    }
                                }
                            },
                            None => {},
                        }
                    }
                    proof {
                        assert(c == v0.chunks[q as int]);
                        assert(flagged == timed_out(t0[q as int], now, ct));
                        assert(owner == assigned_to(charged_plan@, v0.chunks[q as int]));
                        assert(who is Some ==> flagged && owner == who);
                        assert(who is None ==> !(flagged && owner is Some && owner->0 != self_id));
                        assert forall|i: int| 0 <= i < peers1.len() implies kept_entry(
                            peers1[i],
                            #[trigger] self.peers@[i],
                        ) && self.peers@[i].metrics.failures == bump(
                            peers1[i].metrics.failures,
                            timeout_charges(charged_plan@, v0.chunks, t0, now, ct, peers1[i].device_id, q + 1),
                        ) by {
                            let d = peers1[i].device_id;
                            assert(kept_entry(pp[i], self.peers@[i]));
                            assert(pp[i].device_id == d);
                            assert(pp[i] == pp[i]);
                            assert(d != self.self_id());
                            let before_count = timeout_charges(charged_plan@, v0.chunks, t0, now, ct, d, q as int);
                            let hit = timed_out(t0[q as int], now, ct) && assigned_to(charged_plan@, v0.chunks[q as int])
                                == Some(d);
                            assert(timeout_charges(charged_plan@, v0.chunks, t0, now, ct, d, q + 1) == before_count + if hit {
                                1nat
                            } else {
                                0nat
                            });
                            assert(pp[i].metrics.failures == bump(peers1[i].metrics.failures, before_count));
                            if who is Some {
                                assert(self.peers@[i].metrics.failures == (if pp[i].device_id == who->0
                                    && pp[i].metrics.failures < u64::MAX {
                                    (pp[i].metrics.failures + 1) as u64
                                } else {
                                    pp[i].metrics.failures
                                }));
                            } else {
                                assert(self.peers@[i] == pp[i]);
                            }
                        }
                    }
                    q = q + 1;
                }
                self.active_transfer = Some(ActiveTransfer { state, assignment, request_ticks });
            },
        }
        actions
    }

    /// Advances time by one tick. Peers not heard of for more than the
    /// heartbeat timeout are evicted and their chunks re-dealt; chunk requests
    /// older than the chunk timeout are taken out of flight, charged to their
    /// worker and re-dealt; then a heartbeat goes to every remaining peer. The
    /// heartbeats are the last actions, one per peer in peer order.
    pub fn tick(&mut self) -> (r: Vec<OutboundAction>)
        requires
            old(self).wf(),
        ensures
            final(self).wf(),
            !old(self).has_transfer() ==> r@.len() == final(self).peer_ids().len(),
            keeps_settings(*old(self), *final(self)),
            final(self).ticks() == (if old(self).ticks() < u64::MAX {
                (old(self).ticks() + 1) as u64
            } else {
                old(self).ticks()
            }),
            final(self).peer_ids() == ids_of(
                alive_peers(old(self).peer_table(), final(self).ticks(), old(self).thresholds_spec().heartbeat_timeout_ticks),
            ),
            forall|i: int|
                0 <= i < old(self).peer_table().len() ==> (final(self).peer_ids().contains(
                    (#[trigger] old(self).peer_table()[i]).device_id,
                ) <==> is_alive(
                    old(self).peer_table()[i],
                    final(self).ticks(),
                    old(self).thresholds_spec().heartbeat_timeout_ticks,
                )),
            final(self).isolated_ids() == old(self).isolated_ids(),
            final(self).has_transfer() == old(self).has_transfer(),
            old(self).has_transfer() ==> {
                &&& final(self).transfer().chunks == old(self).transfer().chunks
                &&& final(self).transfer().stored == old(self).transfer().stored
                &&& forall|k: int|
                    0 <= k < old(self).transfer().chunks.len() ==> (timed_out(
                        #[trigger] old(self).request_ticks()[k],
                        final(self).ticks(),
                        old(self).thresholds_spec().chunk_timeout_ticks,
                    ) ==> final(self).request_ticks()[k] is None && !final(self).transfer().flying[k]
                        && assigned_to(final(self).plan(), old(self).transfer().chunks[k]) is Some
                        && final(self).workers().contains(
                        assigned_to(final(self).plan(), old(self).transfer().chunks[k])->0,
                    ) && planned_once(
                        final(self).plan(),
                        old(self).transfer().chunks[k],
                        assigned_to(final(self).plan(), old(self).transfer().chunks[k])->0,
                    ))
            },
            r@.len() >= final(self).peer_ids().len(),
            forall|i: int|
                0 <= i < final(self).peer_ids().len() ==> r@[r@.len() - final(self).peer_ids().len() + i]
                    == OutboundAction::SendMessage(
                    #[trigger] final(self).peer_ids()[i],
                    Message::Heartbeat { device_id: old(self).self_id() },
                ),
            forall|i: int|
                0 <= i < r@.len() - final(self).peer_ids().len() ==> addressed_to(#[trigger] r@[i], final(self).workers()),
            final(self).peer_table().len() == alive_peers(
                old(self).peer_table(),
                final(self).ticks(),
                old(self).thresholds_spec().heartbeat_timeout_ticks,
            ).len(),
            forall|i: int|
                0 <= i < final(self).peer_table().len() ==> kept_entry(
                    alive_peers(
                        old(self).peer_table(),
                        final(self).ticks(),
                        old(self).thresholds_spec().heartbeat_timeout_ticks,
                    )[i],
                    #[trigger] final(self).peer_table()[i],
                ),
            old(self).has_transfer() ==> forall|i: int|
                0 <= i < final(self).peer_table().len() ==> (#[trigger] final(self).peer_table()[i]).metrics.failures
                    == bump(
                    alive_peers(
                        old(self).peer_table(),
                        final(self).ticks(),
                        old(self).thresholds_spec().heartbeat_timeout_ticks,
                    )[i].metrics.failures,
                    timeout_charges(
                        old(self).plan(),
                        old(self).transfer().chunks,
                        old(self).request_ticks(),
                        final(self).ticks(),
                        old(self).thresholds_spec().chunk_timeout_ticks,
                        alive_peers(
                            old(self).peer_table(),
                            final(self).ticks(),
                            old(self).thresholds_spec().heartbeat_timeout_ticks,
                        )[i].device_id,
                        old(self).transfer().chunks.len() as int,
                    ),
                ),
            !old(self).has_transfer() ==> final(self).peer_table() == alive_peers(
                old(self).peer_table(),
                final(self).ticks(),
                old(self).thresholds_spec().heartbeat_timeout_ticks,
            ),
    {
        let now = self.tick_count.saturating_add(1);
        self.tick_count = now;
        proof {
            assert(self.workers() =~= old(self).workers());
        }
        let ghost before = self.peers@;
        let snapshot: Vec<(ChunkId, DeviceId)> = match self.current_assignment() {
            Some(a) => a,
            None => Vec::new(),
        };
        let mut actions = self.expire_peers(now);
        proof {
            lemma_alive_peers(before, now, self.thresholds.heartbeat_timeout_ticks);
            assert forall|i: int| 0 <= i < before.len() implies (self.peer_ids().contains(
                (#[trigger] before[i]).device_id,
            ) <==> is_alive(before[i], now, self.thresholds.heartbeat_timeout_ticks)) by {
                let al = alive_peers(before, now, self.thresholds.heartbeat_timeout_ticks);
                if is_alive(before[i], now, self.thresholds.heartbeat_timeout_ticks) {
                    let j = choose|j: int| 0 <= j < al.len() && al[j] == before[i];
                    assert(self.peer_ids()[j] == before[i].device_id);
                } else if self.peer_ids().contains(before[i].device_id) {
                    let j = choose|j: int| 0 <= j < al.len() && ids_of(al)[j] == before[i].device_id;
                    let m = choose|m: int| 0 <= m < before.len() && before[m] == al[j];
                    assert(before[m].device_id == before[i].device_id);
                    assert(m == i);
                }
            }
        }
        let ghost ab = actions@;
        let ghost w1 = self.workers();
        let mut more = self.expire_requests(now, &snapshot);
        let ghost mb = more@;
        actions.append(&mut more);
        proof {
            assert(self.workers() =~= w1);
            assert forall|i: int| 0 <= i < actions@.len() implies addressed_to(#[trigger] actions@[i], self.workers()) by {
                if i < ab.len() {
                    assert(actions@[i] == ab[i]);
                } else {
                    assert(actions@[i] == mb[i - ab.len()]);
                }
            }
        }
        let self_id = self.keypair.device_id();
        let ghost prefix = actions@;
        let mut i: usize = 0;
        while i < self.peers.len()
            invariant
                0 <= i <= self.peers@.len(),
                actions@.len() == prefix.len() + i,
                forall|j: int| 0 <= j < i ==> actions@[prefix.len() + j] == OutboundAction::SendMessage(
                    #[trigger] self.peer_ids()[j],
                    Message::Heartbeat { device_id: self_id },
                ),
                forall|j: int| 0 <= j < prefix.len() ==> actions@[j] == prefix[j],
            decreases self.peers@.len() - i,
        {
            actions.push(OutboundAction::SendMessage(self.peers[i].device_id, Message::Heartbeat { device_id: self_id }));
            i = i + 1;
        }
        proof {
            assert(self.peer_ids().len() == self.peers@.len());
            assert forall|q: int| 0 <= q < actions@.len() - self.peer_ids().len() implies addressed_to(
                #[trigger] actions@[q],
                self.workers(),
            ) by {
                assert(actions@[q] == prefix[q]);
            }
        }
        actions
    }
}


impl PeaPodCore {
    /// Deals a timed-out chunk to a worker other than its current one;
    /// returns the new plan and the chunk's request.
    fn redeal_timed_out(
        &mut self,
        plan: &Vec<(ChunkId, DeviceId)>,
        c: ChunkId,
        counter: usize,
        workers: &Vec<DeviceId>,
        cs: Ghost<Seq<ChunkId>>,
    ) -> (r: (Vec<(ChunkId, DeviceId)>, OutboundAction))
        requires
            old(self).trust.wf(),
            old(self).base_wf(),
            old(self).active_transfer is None,
            workers@ == old(self).workers(),
            workers@.len() > 0,
            assigned_within(plan@, workers@, cs@),
            cs@.contains(c),
        ensures
            final(self).trust.wf(),
            final(self).base_wf(),
            final(self).active_transfer is None,
            final(self).peer_ids() == old(self).peer_ids(),
            final(self).keypair == old(self).keypair,
            final(self).thresholds == old(self).thresholds,
            final(self).isolated == old(self).isolated,
            final(self).tick_count == old(self).tick_count,
            assigned_within(r.0@, workers@, cs@),
            assigned_to(r.0@, c) is Some,
            workers@.contains(assigned_to(r.0@, c)->0),
            forall|x: ChunkId| x != c ==> #[trigger] assigned_to(r.0@, x) == assigned_to(plan@, x),
            planned_once(r.0@, c, assigned_to(r.0@, c)->0),
            forall|x: ChunkId, d: DeviceId| x != c && #[trigger] planned_once(plan@, x, d) ==> planned_once(r.0@, x, d),
            addressed_to(r.1, workers@),
            r.1 == request_action(old(self).self_id(), c, assigned_to(r.0@, c)->0),
            covers(plan@, cs@) ==> covers(r.0@, cs@),
            final(self).peer_table().len() == old(self).peer_table().len(),
            forall|i: int|
                0 <= i < old(self).peer_table().len() ==> kept_entry(
                    old(self).peer_table()[i],
                    #[trigger] final(self).peer_table()[i],
                ),
            *final(self) == *old(self),
    {
        let self_id = self.keypair.device_id();
        let prev = assigned_worker(plan.as_slice(), &c);
        let w = pick_worker(workers, prev, counter);
        let new_plan = reassign_chunk(plan, c, w);
        proof {
            assert forall|j: int| 0 <= j < new_plan@.len() implies workers@.contains((#[trigger] new_plan@[j]).1)
                && cs@.contains(new_plan@[j].0) by {
                if j < new_plan@.len() - 1 {
                    let m = choose|m: int| 0 <= m < plan@.len() && plan@[m] == new_plan@[j];
                    assert(workers@.contains(plan@[m].1));
                }
            }
        }
        let action = if w == self_id {
            OutboundAction::WanFetch { peer: self_id, transfer_id: c.transfer_id, start: c.start, end: c.end }
        } else {
            OutboundAction::SendMessage(w, chunk_request_message(c))
        };
        proof {
            assert(workers@[0] == self_id);
            if covers(plan@, cs@) {
                assert forall|k: int| 0 <= k < cs@.len() implies plan_has(new_plan@, #[trigger] cs@[k]) by {
                    let i = choose|i: int| 0 <= i < plan@.len() && plan@[i].0 == cs@[k];
                    if plan@[i].0 != c {
                        let j = choose|j: int| 0 <= j < new_plan@.len() && new_plan@[j] == plan@[i];
                    } else {
                        assert(new_plan@[new_plan@.len() - 1].0 == c);
                    }
                }
            }
        }
        (new_plan, action)
    }
}

impl PeaPodCore {
    /// A `Nack` for a chunk of the active transfer: the chunk leaves flight
    /// and goes to the first worker other than the sender, which is asked
    /// for it.
    fn on_nack(&mut self, from: DeviceId, transfer_id: [u8; 16], start: u64, end: u64) -> (r: Vec<OutboundAction>)
        requires
            old(self).wf(),
        ensures
            final(self).wf(),
            keeps_settings(*old(self), *final(self)),
            final(self).peer_table() == old(self).peer_table(),
            final(self).isolated_ids() == old(self).isolated_ids(),
            final(self).ticks() == old(self).ticks(),
            final(self).has_transfer() == old(self).has_transfer(),
            ({
                let id = ChunkId { transfer_id, start, end };
                if old(self).has_transfer() && old(self).transfer().transfer_id == transfer_id
                    && old(self).transfer().index(id) >= 0 {
                    let k = old(self).transfer().index(id);
                    &&& r@.len() == 1
                    &&& final(self).transfer() == (TransferView {
                        flying: old(self).transfer().flying.update(k, false),
                        ..old(self).transfer()
                    })
                    &&& final(self).request_ticks() == old(self).request_ticks().update(k, None)
                    &&& assigned_to(final(self).plan(), id) is Some
                    &&& old(self).workers().contains(assigned_to(final(self).plan(), id)->0)
                    &&& planned_once(final(self).plan(), id, assigned_to(final(self).plan(), id)->0)
                    &&& from != old(self).self_id() ==> assigned_to(final(self).plan(), id)->0 != from
                    &&& r@[0] == request_action(old(self).self_id(), id, assigned_to(final(self).plan(), id)->0)
                } else {
                    r@.len() == 0 && *final(self) == *old(self)
                }
            }),
    {
        let self_id = self.keypair.device_id();
        let workers = self.worker_list();
        match self.active_transfer.take() {
            None => Vec::new(),
            Some(a) => {
                let ActiveTransfer { mut state, assignment, mut request_ticks } = a;
                let current = state.transfer_id();
                if !bytes_equal(current.as_slice(), transfer_id.as_slice()) {
                    proof {
                        if current == transfer_id {
                            assert(current@ == transfer_id@);
                        }
                    }
                    self.active_transfer = Some(ActiveTransfer { state, assignment, request_ticks });
                    return Vec::new();
                }
                proof {
                    assert(current =~= transfer_id);
                }
                let id = ChunkId { transfer_id, start, end };
                match state.position(&id) {
                    None => {
                        self.active_transfer = Some(ActiveTransfer { state, assignment, request_ticks });
                        Vec::new()
                    },
                    Some(k) => {
                        let ghost cs = state@.chunks;
                        request_ticks.set(k, None);
                        state.mark_failed(id);
                        let w = pick_worker(&workers, Some(from), 0);
                        let plan = reassign_chunk(&assignment, id, w);
                        proof {
                            assert(workers@[0] == self_id);
                            assert(cs[k as int] == id);
                            assert forall|j: int| 0 <= j < plan@.len() implies workers@.contains(
                                (#[trigger] plan@[j]).1,
                            ) && cs.contains(plan@[j].0) by {
                                if j < plan@.len() - 1 {
                                    let m = choose|m: int| 0 <= m < assignment@.len() && assignment@[m] == plan@[j];
                                    assert(workers@.contains(assignment@[m].1));
                                }
                            }
                            assert(plan@.drop_last().push(plan@.last()) =~= plan@);
                        }
                        self.active_transfer = Some(ActiveTransfer { state, assignment: plan, request_ticks });
                        let action = if w == self_id {
                            OutboundAction::WanFetch { peer: self_id, transfer_id, start, end }
                        } else {
                            OutboundAction::SendMessage(w, chunk_request_message(id))
                        };
                        let mut out: Vec<OutboundAction> = Vec::new();
                        out.push(action);
                        out
                    },
                }
            },
        }
    }

    /// Handles a message received from peer `from`.
    ///
    /// - `Heartbeat` and `Join` refresh or add the peer; `Leave` removes it
    ///   and re-deals its chunks.
    /// - A `Beacon` of this protocol version adds the sender and is answered
    ///   with a `DiscoveryResponse`; a `DiscoveryResponse` adds its sender.
    /// - A `ChunkRequest` asks the host to fetch the range for `from`.
    /// - `ChunkData` goes to chunk receipt: a completed transfer yields
    ///   `TransferComplete`, a failed check a `Nack` to `from`.
    /// - A `Nack` re-deals the chunk to another worker.
    pub fn on_message_received(&mut self, from: DeviceId, msg: Message) -> (r: Vec<OutboundAction>)
        requires
            old(self).wf(),
        ensures
            final(self).wf(),
            keeps_settings(*old(self), *final(self)),
            final(self).isolated_ids().len() >= old(self).isolated_ids().len(),
            match msg {
                Message::Heartbeat { device_id } => {
                    &&& r@.len() == 0
                    &&& final(self).peer_ids() == old(self).peer_ids()
                    &&& forall|i: int|
                        0 <= i < final(self).peer_table().len() ==> (#[trigger] final(self).peer_table()[i]).last_seen
                            == (if old(self).peer_table()[i].device_id == device_id {
                            old(self).ticks()
                        } else {
                            old(self).peer_table()[i].last_seen
                        })
                },
                Message::Join { device_id } => {
                    &&& r@.len() == 0
                    &&& device_id != old(self).self_id() && !old(self).isolated_ids().contains(device_id) ==> {
                        &&& final(self).peer_ids().contains(device_id)
                        &&& forall|i: int|
                            0 <= i < final(self).peer_table().len() && (#[trigger] final(self).peer_table()[i]).device_id
                                == device_id ==> final(self).peer_table()[i].last_seen == old(self).ticks()
                    }
                },
                Message::Leave { device_id } => device_id != old(self).self_id() ==> {
                    &&& !final(self).peer_ids().contains(device_id)
                    &&& final(self).peer_table() == without_peer(old(self).peer_table(), device_id)
                    &&& old(self).has_transfer() ==> final(self).plan() == redeal_of(
                        old(self).plan(),
                        device_id,
                        final(self).workers(),
                    ) && r@ == request_actions(
                        old(self).self_id(),
                        round_robin(chunks_of(old(self).plan(), device_id), final(self).workers()),
                    )
                    &&& !old(self).has_transfer() ==> r@.len() == 0
                },
                Message::Beacon { protocol_version, device_id, public_key, listen_port } => if protocol_version
                    == PROTOCOL_VERSION && device_id != old(self).self_id() {
                    &&& r@.len() == 1
                    &&& r@[0] == OutboundAction::SendMessage(
                        from,
                        Message::DiscoveryResponse {
                            protocol_version: PROTOCOL_VERSION,
                            device_id: old(self).self_id(),
                            public_key: old(self).own_public_key(),
                            listen_port: old(self).thresholds_spec().listen_port,
                        },
                    )
                    &&& !old(self).isolated_ids().contains(device_id) ==> final(self).peer_ids().contains(device_id)
                } else {
                    r@.len() == 0 && *final(self) == *old(self)
                },
                Message::DiscoveryResponse { protocol_version, device_id, public_key, listen_port } => {
                    &&& r@.len() == 0
                    &&& protocol_version == PROTOCOL_VERSION && device_id != old(self).self_id()
                        && !old(self).isolated_ids().contains(device_id) ==> final(self).peer_ids().contains(device_id)
                    &&& protocol_version != PROTOCOL_VERSION || device_id == old(self).self_id() ==> *final(self)
                        == *old(self)
                },
                Message::ChunkRequest { transfer_id, start, end } => {
                    &&& *final(self) == *old(self)
                    &&& r@ == seq![OutboundAction::WanFetch { peer: from, transfer_id, start, end }]
                },
                Message::ChunkData { transfer_id, start, end, hash, payload } => {
                    let v = old(self).transfer();
                    let id = ChunkId { transfer_id, start, end };
                    let outcome = chunk_outcome(v, id, hash@, payload@);
                    let worker = assigned_to(old(self).plan(), id);
                    if old(self).has_transfer() && v.transfer_id == transfer_id {
                        &&& outcome matches Ok(Some(b)) ==> r@.len() == 1 && (r@[0] matches OutboundAction::TransferComplete(t, body) && t == transfer_id && body@ == b)
                        &&& outcome matches Ok(None) ==> r@.len() == 0
                        &&& outcome is Err ==> r@ == seq![
                            OutboundAction::SendMessage(from, Message::Nack { transfer_id, start, end }),
                        ] + (if rejected(v, id, hash@, payload@) && worker is Some && worker->0 != old(
                            self,
                        ).self_id() && final(self).integrity_failures(worker->0)
                            >= old(self).thresholds_spec().isolation_threshold {
                            request_actions(
                                old(self).self_id(),
                                round_robin(chunks_of(old(self).plan(), worker->0), final(self).workers()),
                            )
                        } else {
                            Seq::empty()
                        })
                        &&& received_as(*old(self), *final(self), id, hash@, payload@, outcome)
                    } else {
                        r@.len() == 0 && *final(self) == *old(self)
                    }
                },
                Message::Nack { transfer_id, start, end } => {
                    let id = ChunkId { transfer_id, start, end };
                    if old(self).has_transfer() && old(self).transfer().transfer_id == transfer_id
                        && old(self).transfer().index(id) >= 0 {
                        let k = old(self).transfer().index(id);
                        let w = assigned_to(final(self).plan(), id)->0;
                        &&& r@.len() == 1
                        &&& from != old(self).self_id() ==> w != from
                        &&& old(self).workers().contains(w)
                        &&& planned_once(final(self).plan(), id, w)
                        &&& final(self).transfer() == (TransferView {
                            flying: old(self).transfer().flying.update(k, false),
                            ..old(self).transfer()
                        })
                        &&& final(self).request_ticks() == old(self).request_ticks().update(k, None)
                        &&& r@[0] == request_action(old(self).self_id(), id, w)
                    } else {
                        r@.len() == 0 && *final(self) == *old(self)
                    }
                },
            },
    {
        match msg {
            Message::Heartbeat { device_id } => {
                self.on_heartbeat_received(device_id);
                Vec::new()
            },
            Message::Join { device_id } => {
                match self.find_peer(&device_id) {
                    Some(i) => {
                        proof {
                            assert(self.peer_ids()[i as int] == device_id);
                        }
                        let ghost before = self.peer_table();
                        self.on_heartbeat_received(device_id);
                        proof {
                            assert(self.peer_ids()[i as int] == device_id);
                            assert forall|q: int|
                                0 <= q < self.peer_table().len() && (#[trigger] self.peer_table()[q]).device_id
                                    == device_id implies self.peer_table()[q].last_seen == old(self).ticks() by {
                                assert(self.peer_ids()[q] == self.peer_table()[q].device_id);
                                assert(ids_of(before)[q] == before[q].device_id);
                            }
                        }
                    },
                    None => {
                        let mut key: [u8; 32] = [0u8; 32];
                        let mut i: usize = 0;
                        while i < 16
                            invariant
                                0 <= i <= 16,
                            decreases 16 - i,
                        {
                            key[i] = device_id.0[i];
                            i = i + 1;
                        }
                        self.on_peer_joined(device_id, &PublicKey(key));
                        proof {
                            if device_id != old(self).self_id() && !old(self).isolated_ids().contains(device_id) {
                                assert(self.peer_ids()[self.peer_ids().len() - 1] == device_id);
                            }
                        }
                    },
                }
                Vec::new()
            },
            Message::Leave { device_id } => self.on_peer_left(device_id),
            Message::Beacon { protocol_version, device_id, public_key, listen_port: _ } => {
                if protocol_version != PROTOCOL_VERSION || device_id == self.keypair.device_id() {
                    return Vec::new();
                }
                self.joined_contains(device_id, &public_key);
                let reply = Message::DiscoveryResponse {
                    protocol_version: PROTOCOL_VERSION,
                    device_id: self.keypair.device_id(),
                    public_key: *self.keypair.public_key(),
                    listen_port: self.thresholds.listen_port,
                };
                let mut out: Vec<OutboundAction> = Vec::new();
                out.push(OutboundAction::SendMessage(from, reply));
                out
            },
            Message::DiscoveryResponse { protocol_version, device_id, public_key, listen_port: _ } => {
                if protocol_version == PROTOCOL_VERSION && device_id != self.keypair.device_id() {
                    self.joined_contains(device_id, &public_key);
                }
                Vec::new()
            },
            Message::ChunkRequest { transfer_id, start, end } => {
                let mut out: Vec<OutboundAction> = Vec::new();
                out.push(OutboundAction::WanFetch { peer: from, transfer_id, start, end });
                proof {
                    assert(out@ =~= seq![OutboundAction::WanFetch { peer: from, transfer_id, start, end }]);
                }
                out
            },
            Message::ChunkData { transfer_id, start, end, hash, payload } => {
                let (result, mut more) = self.receive_chunk(transfer_id, start, end, hash, payload);
                let mut out: Vec<OutboundAction> = Vec::new();
                match result {
                    Ok(Some(bytes)) => {
                        out.push(OutboundAction::TransferComplete(transfer_id, bytes));
                    },
                    Ok(None) => {},
                    Err(ChunkError::UnknownTransfer) => {},
                    Err(ChunkError::IntegrityFailed) => {
                        out.push(OutboundAction::SendMessage(from, Message::Nack { transfer_id, start, end }));
                        let ghost nack = out@;
                        let ghost rest = more@;
                        out.append(&mut more);
                        proof {
                            assert(out@ =~= nack + rest);
                        }
                    },
                }
                out
            },
            Message::Nack { transfer_id, start, end } => self.on_nack(from, transfer_id, start, end),
        }
    }

    /// This device's public key.
    pub closed spec fn own_public_key(&self) -> PublicKey {
        self.keypair.public_spec()
    }
}

impl PeaPodCore {
    /// `on_peer_joined`, stated by membership.
    fn joined_contains(&mut self, peer_id: DeviceId, public_key: &PublicKey)
        requires
            old(self).wf(),
        ensures
            final(self).wf(),
            keeps_settings(*old(self), *final(self)),
            final(self).isolated_ids() == old(self).isolated_ids(),
            final(self).self_id() == old(self).self_id(),
            final(self).thresholds_spec() == old(self).thresholds_spec(),
            final(self).own_public_key() == old(self).own_public_key(),
            peer_id == old(self).self_id() || old(self).isolated_ids().contains(peer_id) ==> *final(self) == *old(self),
            peer_id != old(self).self_id() && !old(self).isolated_ids().contains(peer_id) ==> final(self).peer_ids().contains(peer_id),
    {
        let ghost before = self.peer_ids();
        self.on_peer_joined(peer_id, public_key);
        proof {
            if peer_id != old(self).self_id() && !old(self).isolated_ids().contains(peer_id) {
                if !before.contains(peer_id) {
                    assert(self.peer_ids()[self.peer_ids().len() - 1] == peer_id);
                }
            }
        }
    }
}

/// What the host knows of an incoming request, to decide whether the pod
/// may serve it.
pub struct RequestMetadata {
    pub url: String,
    pub method: String,
    pub content_length: Option<u64>,
    pub supports_range: bool,
    pub is_encrypted_stream: bool,
}

/// A request may be served by the pod when the server supports ranges, the
/// stream is not encrypted end to end, and its length is known and positive.
pub open spec fn eligible(supports_range: bool, is_encrypted_stream: bool, content_length: Option<u64>) -> bool {
    supports_range && !is_encrypted_stream && (content_length matches Some(l) && l > 0)
}

/// Whether a request may be served by the pod.
pub fn is_eligible(metadata: &RequestMetadata) -> (r: bool)
    ensures
        r == eligible(metadata.supports_range, metadata.is_encrypted_stream, metadata.content_length),
{
    metadata.supports_range && !metadata.is_encrypted_stream && match metadata.content_length {
        Some(l) => l > 0,
        None => false,
    }
}

impl PeaPodCore {
    /// Answers an incoming request described by its metadata: ineligible
    /// requests fall back; eligible ones ask for the whole content,
    /// `(0, content_length − 1)`.
    pub fn on_incoming_request_with_metadata(&mut self, metadata: &RequestMetadata) -> (r: Action)
        requires
            old(self).wf(),
        ensures
            final(self).wf(),
            keeps_settings(*old(self), *final(self)),
            !eligible(metadata.supports_range, metadata.is_encrypted_stream, metadata.content_length) ==> r is Fallback
                && *final(self) == *old(self),
            eligible(metadata.supports_range, metadata.is_encrypted_stream, metadata.content_length) ==> (r is Fallback
                <==> !is_http_url(vstd::utf8::encode_utf8(metadata.url@)) || old(self).peer_table().len() == 0),
            r is Fallback ==> *final(self) == *old(self),
            r matches Action::Accelerate { transfer_id: t, total_length: n, assignment: a } ==> {
                &&& metadata.content_length == Some(n)
                &&& a@ == final(self).plan()
                &&& final(self).has_transfer()
                &&& final(self).transfer().transfer_id == t
                &&& crate::chunk::is_split(final(self).transfer().chunks, t, n as nat, DEFAULT_CHUNK_SIZE as nat)
                &&& final(self).plan() == round_robin(
                    final(self).transfer().chunks,
                    effective_workers(
                        old(self).workers(),
                        metrics_of(old(self).peer_table()),
                        old(self).thresholds_spec().isolation_threshold as u64,
                    ),
                )
            },
    {
        if !is_eligible(metadata) {
            return Action::Fallback;
        }
        let len = match metadata.content_length {
            Some(l) => l,
            None => 0,
        };
        self.on_incoming_request(metadata.url.as_str(), Some((0, len - 1)))
    }
}

/// An isolated peer is no worker of this coordinator: no chunk is planned
/// for it, and no later assignment can name it.
pub proof fn lemma_isolated_never_scheduled(core: PeaPodCore, p: DeviceId)
    requires
        core.wf(),
        core.isolated_ids().contains(p),
    ensures
        !core.workers().contains(p),
        core.has_transfer() ==> forall|i: int| 0 <= i < core.plan().len() ==> (#[trigger] core.plan()[i]).1 != p,
        forall|ms: Seq<(DeviceId, PeerMetrics)>, max: u64, i: int|
            0 <= i < effective_workers(core.workers(), ms, max).len() ==> #[trigger] effective_workers(
                core.workers(),
                ms,
                max,
            )[i] != p,
{
    if core.workers().contains(p) {
        let m = choose|m: int| 0 <= m < core.workers().len() && core.workers()[m] == p;
        if m > 0 {
            assert(core.peer_ids()[m - 1] == core.peer_table()[m - 1].device_id);
        }
    }
    assert forall|ms: Seq<(DeviceId, PeerMetrics)>, max: u64, i: int|
        0 <= i < effective_workers(core.workers(), ms, max).len() implies #[trigger] effective_workers(
            core.workers(),
            ms,
            max,
        )[i] != p by {
        lemma_eligible_workers(core.workers(), ms, max);
        let e = effective_workers(core.workers(), ms, max);
        assert(core.workers().contains(e[i]));
    }
}

/// An upload being distributed to peers.
pub struct ActiveUpload {
    pub transfer_id: [u8; 16],
    pub total_length: u64,
    pub assignment: Vec<(ChunkId, DeviceId)>,
    /// Chunks that peers confirmed.
    pub completed: Vec<ChunkId>,
    /// SHA-256 digest of each chunk.
    pub chunk_hashes: Vec<(ChunkId, [u8; 32])>,
}

/// Answer to an upload.
pub enum UploadAction {
    /// Send each chunk to its peer.
    Distribute {
        transfer_id: [u8; 16],
        assignment: Vec<(ChunkId, DeviceId)>,
        chunk_data: Vec<(ChunkId, Vec<u8>)>,
    },
    /// No peer: the host uploads alone.
    Fallback,
}

/// Splits outbound data of `data_len` bytes into chunks, as a download is.
pub fn split_upload_chunks(transfer_id: [u8; 16], data_len: u64, chunk_size: u64) -> (r: Vec<ChunkId>)
    ensures
        crate::chunk::is_split(r@, transfer_id, data_len as nat, crate::chunk::effective_size(chunk_size)),
{
    split_into_chunks(transfer_id, data_len, chunk_size)
}

impl PeaPodCore {
    pub closed spec fn has_upload(&self) -> bool {
        self.active_upload is Some
    }

    /// Starts an upload under a freshly minted transfer id.
    pub fn start_upload(&mut self, data: &[u8]) -> (r: UploadAction)
        requires
            old(self).wf(),
        ensures
            final(self).wf(),
            keeps_settings(*old(self), *final(self)),
            r is Fallback <==> old(self).peer_table().len() == 0,
            r is Fallback ==> *final(self) == *old(self),
            r matches UploadAction::Distribute { transfer_id: t, assignment: a, chunk_data: cd } ==> {
                let cs = Seq::new(cd@.len(), |i: int| cd@[i].0);
                &&& crate::chunk::is_split(cs, t, data@.len() as nat, DEFAULT_CHUNK_SIZE as nat)
                &&& a@ == round_robin(cs, old(self).peer_ids())
                &&& forall|i: int| 0 <= i < cd@.len() ==> (#[trigger] cd@[i]).1@ == data@.subrange(cd@[i].0.start as int, cd@[i].0.end as int)
                &&& final(self).has_upload()
            },
    {
        let transfer_id = new_transfer_id();
        self.start_upload_with_id(data, transfer_id)
    }

    /// Starts an upload under a given transfer id: the data is split into
    /// default-size chunks dealt round-robin over the peers, each with its
    /// digest. Without peers the upload falls back to the host.
    pub fn start_upload_with_id(&mut self, data: &[u8], transfer_id: [u8; 16]) -> (r: UploadAction)
        requires
            old(self).wf(),
        ensures
            final(self).wf(),
            keeps_settings(*old(self), *final(self)),
            old(self).peer_table().len() == 0 ==> r is Fallback && *final(self) == *old(self),
            old(self).peer_table().len() > 0 ==> (r matches UploadAction::Distribute { transfer_id: t, assignment: a, chunk_data: cd } && {
                let cs = Seq::new(cd@.len(), |i: int| cd@[i].0);
                &&& t == transfer_id
                &&& crate::chunk::is_split(cs, transfer_id, data@.len() as nat, DEFAULT_CHUNK_SIZE as nat)
                &&& a@ == round_robin(cs, old(self).peer_ids())
                &&& forall|i: int| 0 <= i < cd@.len() ==> (#[trigger] cd@[i]).1@ == data@.subrange(cd@[i].0.start as int, cd@[i].0.end as int)
            }) && final(self).has_upload(),
    {
        if self.peers.len() == 0 {
            return UploadAction::Fallback;
        }
        let peers = self.peers();
        let data_len = data.len();
        assert(data_len == data@.len());
        let chunk_ids = split_into_chunks(transfer_id, data_len as u64, DEFAULT_CHUNK_SIZE);
        let assignment = assign_chunks_to_peers(chunk_ids.as_slice(), peers.as_slice());
        let mut chunk_hashes: Vec<(ChunkId, [u8; 32])> = Vec::new();
        let mut chunk_data: Vec<(ChunkId, Vec<u8>)> = Vec::new();
        let mut i: usize = 0;
        while i < chunk_ids.len()
            invariant
                0 <= i <= chunk_ids@.len(),
                data@.len() <= usize::MAX,
                crate::chunk::is_split(chunk_ids@, transfer_id, data@.len() as nat, DEFAULT_CHUNK_SIZE as nat),
                chunk_data@.len() == i,
                forall|j: int| 0 <= j < i ==> (#[trigger] chunk_data@[j]).0 == chunk_ids@[j],
                forall|j: int| 0 <= j < i ==> (#[trigger] chunk_data@[j]).1@ == data@.subrange(
                    chunk_ids@[j].start as int,
                    chunk_ids@[j].end as int,
                ),
            decreases chunk_ids@.len() - i,
        {
            let c = chunk_ids[i];
            assert(c == chunk_ids@[i as int]);
            assert(c.start < c.end && c.end <= data@.len());
            let lo: usize = c.start as usize;
            let hi: usize = c.end as usize;
            assert(lo as int == c.start as int && hi as int == c.end as int);
            let payload = vstd::slice::slice_subrange(data, lo, hi);
            let hash = hash_chunk(payload);
            chunk_hashes.push((c, hash));
            let copy = vstd::slice::slice_to_vec(payload);
            assert(copy@ == data@.subrange(c.start as int, c.end as int));
            let ghost before = chunk_data@;
            chunk_data.push((c, copy));
            proof {
                assert forall|j: int| 0 <= j < i + 1 implies (#[trigger] chunk_data@[j]).1@ == data@.subrange(
                    chunk_ids@[j].start as int,
                    chunk_ids@[j].end as int,
                ) by {
                    if j < i {
                        assert(chunk_data@[j] == before[j]);
                    }
                }
            }
            i = i + 1;
        }
        proof {
            let cs = Seq::new(chunk_data@.len(), |i: int| chunk_data@[i].0);
            assert(cs =~= chunk_ids@);
        }
        self.active_upload = Some(ActiveUpload {
            transfer_id,
            total_length: data.len() as u64,
            assignment: vstd::slice::slice_to_vec(assignment.as_slice()),
            completed: Vec::new(),
            chunk_hashes,
        });
        UploadAction::Distribute { transfer_id, assignment, chunk_data }
    }

    /// A peer confirmed an upload chunk. Returns whether every chunk of the
    /// upload's plan is now confirmed, which ends the upload.
    pub fn on_upload_chunk_complete(&mut self, chunk_id: ChunkId) -> (r: bool)
        requires
            old(self).wf(),
        ensures
            final(self).wf(),
            keeps_settings(*old(self), *final(self)),
            !old(self).has_upload() ==> !r && *final(self) == *old(self),
            old(self).has_upload() ==> {
                let done = old(self).upload_done().push(chunk_id);
                &&& r == forall|i: int|
                    0 <= i < old(self).upload_plan().len() ==> done.contains(#[trigger] old(self).upload_plan()[i].0)
                &&& r ==> !final(self).has_upload()
                &&& !r ==> final(self).has_upload() && final(self).upload_done() == done
                    && final(self).upload_plan() == old(self).upload_plan()
            },
    {
        match self.active_upload.take() {
            None => false,
            Some(mut upload) => {
                proof {
                    assert(upload.completed@ == old(self).upload_done());
                    assert(upload.assignment@ == old(self).upload_plan());
                }
                upload.completed.push(chunk_id);
                let mut all_done = true;
                let mut i: usize = 0;
                while i < upload.assignment.len()
                    invariant
                        0 <= i <= upload.assignment@.len(),
                        all_done == forall|q: int| 0 <= q < i ==> upload.completed@.contains(#[trigger] upload.assignment@[q].0),
                    decreases upload.assignment@.len() - i,
                {
                    let c = upload.assignment[i].0;
                    let mut found = false;
                    let mut j: usize = 0;
                    while j < upload.completed.len()
                        invariant
                            0 <= j <= upload.completed@.len(),
                            found == exists|q: int| 0 <= q < j && upload.completed@[q] == c,
                        decreases upload.completed@.len() - j,
                    {
                        if upload.completed[j] == c {
                            found = true;
                        }
                        j = j + 1;
                    }
                    proof {
                        assert(found == upload.completed@.contains(c));
                        assert(c == upload.assignment@[i as int].0);
                    }
                    if !found {
                        all_done = false;
                    }
                    i = i + 1;
                }
                proof {
                    assert(upload.completed@ == old(self).upload_done().push(chunk_id));
                }
                if all_done {
                    true
                } else {
                    self.active_upload = Some(upload);
                    false
                }
            },
        }
    }

    /// Plan of the active upload.
    pub closed spec fn upload_plan(&self) -> Seq<(ChunkId, DeviceId)> {
        self.active_upload->0.assignment@
    }

    /// Confirmed chunks of the active upload.
    pub closed spec fn upload_done(&self) -> Seq<ChunkId> {
        self.active_upload->0.completed@
    }
}

/// The error to report for a frame that could not be decoded.
pub fn message_error_of(e: crate::wire::FrameDecodeError) -> (r: MessageError)
    ensures
        e == crate::wire::FrameDecodeError::TooLarge ==> r == MessageError::FrameTooLarge,
        e == crate::wire::FrameDecodeError::NeedMore ==> r == MessageError::DecodeError,
{
    match e {
        crate::wire::FrameDecodeError::NeedMore => MessageError::DecodeError,
        crate::wire::FrameDecodeError::TooLarge => MessageError::FrameTooLarge,
    }
}

impl PeaPodCore {
    /// Whether an upload is being distributed.
    pub fn upload_in_progress(&self) -> (r: bool)
        ensures
            r == self.has_upload(),
    {
        self.active_upload.is_some()
    }

    /// Whether a transfer is being accelerated.
    pub fn transfer_in_progress(&self) -> (r: bool)
        ensures
            r == self.has_transfer(),
    {
        self.active_transfer.is_some()
    }
}

/// No device occurs twice in `ids`.
pub open spec fn distinct_ids(ids: Seq<DeviceId>) -> bool {
    forall|i: int, j: int| 0 <= i < j < ids.len() ==> #[trigger] ids[i] != #[trigger] ids[j]
}

/// The peer table of a coordinator holds each device at most once, never
/// the coordinator's own device, and no isolated device.
pub proof fn lemma_peer_table(core: PeaPodCore)
    requires
        core.wf(),
    ensures
        distinct_ids(core.peer_ids()),
        !core.peer_ids().contains(core.self_id()),
        forall|i: int| 0 <= i < core.peer_ids().len() ==> !core.isolated_ids().contains(#[trigger] core.peer_ids()[i]),
{
    let ids = core.peer_ids();
    assert forall|i: int, j: int| 0 <= i < j < ids.len() implies #[trigger] ids[i] != #[trigger] ids[j] by {
        assert(ids[i] == core.peer_table()[i].device_id);
        assert(ids[j] == core.peer_table()[j].device_id);
    }
    if ids.contains(core.self_id()) {
        let m = choose|m: int| 0 <= m < ids.len() && ids[m] == core.self_id();
        assert(core.peer_table()[m].device_id == core.self_id());
    }
    assert forall|i: int| 0 <= i < ids.len() implies !core.isolated_ids().contains(#[trigger] ids[i]) by {
        assert(ids[i] == core.peer_table()[i].device_id);
    }
}

} // verus!
