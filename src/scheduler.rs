//! Scheduler: assigns chunks to workers, round-robin or by weight, and
//! re-deals the chunks of a worker that left.

use vstd::prelude::*;
use crate::chunk::ChunkId;
use crate::identity::DeviceId;

verus! {

/// Default number of failures after which a peer is left out of assignments.
pub const DEFAULT_MAX_FAILURES: u64 = 3;

/// Per-peer delivery record.
#[derive(Debug, Clone, Copy, Default)]
pub struct PeerMetrics {
    /// Number of successful chunk deliveries.
    pub successes: u64,
    /// Number of failures (integrity, timeout).
    pub failures: u64,
}

impl PeerMetrics {
    /// Metrics of a peer with no history.
    pub fn new() -> (r: PeerMetrics)
        ensures
            r.successes == 0 && r.failures == 0,
    {
        PeerMetrics { successes: 0, failures: 0 }
    }

    /// Records a successful delivery (the count saturates at `u64::MAX`).
    pub fn record_success(&mut self)
        ensures
            final(self).successes == (if old(self).successes < u64::MAX {
                (old(self).successes + 1) as u64
            } else {
                old(self).successes
            }),
            final(self).failures == old(self).failures,
    {
        self.successes = self.successes.saturating_add(1);
    }

    /// Records a failure (the count saturates at `u64::MAX`).
    pub fn record_failure(&mut self)
        ensures
            final(self).failures == (if old(self).failures < u64::MAX {
                (old(self).failures + 1) as u64
            } else {
                old(self).failures
            }),
            final(self).successes == old(self).successes,
    {
        self.failures = self.failures.saturating_add(1);
    }
}

/// Chunk `i` goes to worker `i mod |workers|`; no workers, no assignment.
pub open spec fn round_robin(cs: Seq<ChunkId>, ws: Seq<DeviceId>) -> Seq<(ChunkId, DeviceId)> {
    if ws.len() == 0 {
        Seq::empty()
    } else {
        Seq::new(cs.len(), |i: int| (cs[i], ws[i % (ws.len() as int)]))
    }
}

/// Assigns chunk `i` to worker `peers[i mod |peers|]`. With no peers the
/// assignment is empty.
pub fn assign_chunks_to_peers(chunk_ids: &[ChunkId], peers: &[DeviceId]) -> (r: Vec<(ChunkId, DeviceId)>)
    ensures
        r@ == round_robin(chunk_ids@, peers@),
        peers@.len() > 0 ==> r@.len() == chunk_ids@.len(),
{
    let mut out: Vec<(ChunkId, DeviceId)> = Vec::new();
    if peers.len() == 0 {
        return out;
    }
    let mut i: usize = 0;
    while i < chunk_ids.len()
        invariant
            peers@.len() > 0,
            0 <= i <= chunk_ids@.len(),
            out@ =~= round_robin(chunk_ids@, peers@).subrange(0, i as int),
        decreases chunk_ids@.len() - i,
    {
        out.push((chunk_ids[i], peers[i % peers.len()]));
        i = i + 1;
    }
    out
}

/// Worker `p` has no recorded metrics with `max_failures` failures or more.
pub open spec fn below_threshold(ms: Seq<(DeviceId, PeerMetrics)>, p: DeviceId, max_failures: u64) -> bool {
    forall|i: int| 0 <= i < ms.len() && (#[trigger] ms[i]).0 == p ==> ms[i].1.failures < max_failures
}

/// The workers below the failure threshold, in order.
pub open spec fn eligible_workers(ws: Seq<DeviceId>, ms: Seq<(DeviceId, PeerMetrics)>, max_failures: u64) -> Seq<DeviceId>
    decreases ws.len(),
{
    if ws.len() == 0 {
        Seq::empty()
    } else if below_threshold(ms, ws.last(), max_failures) {
        eligible_workers(ws.drop_last(), ms, max_failures).push(ws.last())
    } else {
        eligible_workers(ws.drop_last(), ms, max_failures)
    }
}

/// The workers that an assignment with metrics deals to: those below the
/// threshold, or all of them if none is.
pub open spec fn effective_workers(ws: Seq<DeviceId>, ms: Seq<(DeviceId, PeerMetrics)>, max_failures: u64) -> Seq<DeviceId> {
    if eligible_workers(ws, ms, max_failures).len() > 0 {
        eligible_workers(ws, ms, max_failures)
    } else {
        ws
    }
}

/// Every worker of `eligible_workers` is one of `ws` and below the threshold.
pub proof fn lemma_eligible_workers(ws: Seq<DeviceId>, ms: Seq<(DeviceId, PeerMetrics)>, max_failures: u64)
    ensures
        forall|i: int|
            0 <= i < eligible_workers(ws, ms, max_failures).len() ==> ws.contains(
                #[trigger] eligible_workers(ws, ms, max_failures)[i],
            ) && below_threshold(ms, eligible_workers(ws, ms, max_failures)[i], max_failures),
    decreases ws.len(),
{
    if ws.len() > 0 {
        lemma_eligible_workers(ws.drop_last(), ms, max_failures);
        let e = eligible_workers(ws, ms, max_failures);
        let e0 = eligible_workers(ws.drop_last(), ms, max_failures);
        assert forall|i: int| 0 <= i < e.len() implies ws.contains(#[trigger] e[i]) && below_threshold(
            ms,
            e[i],
            max_failures,
        ) by {
            if i < e0.len() {
                assert(e[i] == e0[i]);
                let j = choose|j: int| 0 <= j < ws.drop_last().len() && ws.drop_last()[j] == e0[i];
                assert(ws[j] == e[i]);
            } else {
                assert(ws[ws.len() - 1] == e[i]);
            }
        }
    }
}

fn below_threshold_exec(metrics: &[(DeviceId, PeerMetrics)], p: DeviceId, max_failures: u64) -> (r: bool)
    ensures
        r == below_threshold(metrics@, p, max_failures),
{
    let mut i: usize = 0;
    while i < metrics.len()
        invariant
            0 <= i <= metrics@.len(),
            forall|j: int| 0 <= j < i && (#[trigger] metrics@[j]).0 == p ==> metrics@[j].1.failures < max_failures,
        decreases metrics@.len() - i,
    {
        if metrics[i].0 == p && metrics[i].1.failures >= max_failures {
            return false;
        }
        i = i + 1;
    }
    true
}

/// Round-robin over the workers whose recorded failures are below
/// `max_failures`; if that leaves no worker, over all of them.
pub fn assign_chunks_with_metrics(
    chunk_ids: &[ChunkId],
    peers: &[DeviceId],
    metrics: &[(DeviceId, PeerMetrics)],
    max_failures: u64,
) -> (r: Vec<(ChunkId, DeviceId)>)
    ensures
        r@ == round_robin(chunk_ids@, effective_workers(peers@, metrics@, max_failures)),
        peers@.len() > 0 ==> r@.len() == chunk_ids@.len(),
{
    let mut eligible: Vec<DeviceId> = Vec::new();
    let mut i: usize = 0;
    while i < peers.len()
        invariant
            0 <= i <= peers@.len(),
            eligible@ == eligible_workers(peers@.subrange(0, i as int), metrics@, max_failures),
        decreases peers@.len() - i,
    {
        proof {
            let ws = peers@.subrange(0, i as int + 1);
            assert(ws.drop_last() =~= peers@.subrange(0, i as int));
        }
        if below_threshold_exec(metrics, peers[i], max_failures) {
            eligible.push(peers[i]);
        }
        i = i + 1;
    }
    proof {
        assert(peers@.subrange(0, peers@.len() as int) =~= peers@);
    }
    if eligible.len() > 0 {
        assign_chunks_to_peers(chunk_ids, eligible.as_slice())
    } else {
        assign_chunks_to_peers(chunk_ids, peers)
    }
}

/// The entries of an assignment that give a chunk to `peer`.
pub open spec fn entries_of(a: Seq<(ChunkId, DeviceId)>, peer: DeviceId) -> Seq<(ChunkId, DeviceId)>
    decreases a.len(),
{
    if a.len() == 0 {
        Seq::empty()
    } else if a.last().1 == peer {
        entries_of(a.drop_last(), peer).push(a.last())
    } else {
        entries_of(a.drop_last(), peer)
    }
}

/// The chunks that an assignment gives to `peer`, in order.
pub open spec fn chunks_of(a: Seq<(ChunkId, DeviceId)>, peer: DeviceId) -> Seq<ChunkId> {
    entries_of(a, peer).map_values(|e: (ChunkId, DeviceId)| e.0)
}

/// New assignments for the chunks that `current_assignment` gave to
/// `peer_left`: round-robin over `remaining_peers`, or, with no peer left,
/// back to `peer_left` itself (the host may retry later).
pub fn reassign_after_peer_left(
    current_assignment: &[(ChunkId, DeviceId)],
    peer_left: DeviceId,
    remaining_peers: &[DeviceId],
) -> (r: Vec<(ChunkId, DeviceId)>)
    ensures
        remaining_peers@.len() == 0 ==> r@ == entries_of(current_assignment@, peer_left),
        remaining_peers@.len() > 0 ==> r@ == round_robin(
            chunks_of(current_assignment@, peer_left),
            remaining_peers@,
        ),
{
    let mut mine: Vec<(ChunkId, DeviceId)> = Vec::new();
    let mut chunks: Vec<ChunkId> = Vec::new();
    let mut i: usize = 0;
    while i < current_assignment.len()
        invariant
            0 <= i <= current_assignment@.len(),
            mine@ == entries_of(current_assignment@.subrange(0, i as int), peer_left),
            chunks@ == chunks_of(current_assignment@.subrange(0, i as int), peer_left),
        decreases current_assignment@.len() - i,
    {
        proof {
            let a = current_assignment@.subrange(0, i as int + 1);
            assert(a.drop_last() =~= current_assignment@.subrange(0, i as int));
        }
        let e = current_assignment[i];
        if e.1 == peer_left {
            mine.push(e);
            chunks.push(e.0);
            proof {
                let a = current_assignment@.subrange(0, i as int + 1);
                assert(chunks_of(a, peer_left) =~= chunks_of(
                    current_assignment@.subrange(0, i as int),
                    peer_left,
                ).push(e.0));
            }
        }
        i = i + 1;
    }
    proof {
        assert(current_assignment@.subrange(0, current_assignment@.len() as int) =~= current_assignment@);
    }
    if remaining_peers.len() == 0 {
        mine
    } else {
        assign_chunks_to_peers(chunks.as_slice(), remaining_peers)
    }
}

/// The worker that the last entry for `chunk` names, if any.
pub open spec fn assigned_to(a: Seq<(ChunkId, DeviceId)>, chunk: ChunkId) -> Option<DeviceId>
    decreases a.len(),
{
    if a.len() == 0 {
        None
    } else if a.last().0 == chunk {
        Some(a.last().1)
    } else {
        assigned_to(a.drop_last(), chunk)
    }
}

/// Lookup table from chunk to worker; a later entry for a chunk overrides
/// an earlier one.
pub struct AssignmentMap {
    entries: Vec<(ChunkId, DeviceId)>,
}

impl AssignmentMap {
    pub closed spec fn entries(&self) -> Seq<(ChunkId, DeviceId)> {
        self.entries@
    }

    /// The worker assigned to `chunk`.
    pub fn get(&self, chunk: &ChunkId) -> (r: Option<DeviceId>)
        ensures
            r == assigned_to(self.entries(), *chunk),
    {
        assigned_worker(self.entries.as_slice(), chunk)
    }
}

/// The worker that the last entry for `chunk` names, if any.
pub fn assigned_worker(assignment: &[(ChunkId, DeviceId)], chunk: &ChunkId) -> (r: Option<DeviceId>)
    ensures
        r == assigned_to(assignment@, *chunk),
{
    let mut i: usize = assignment.len();
    proof {
        assert(assignment@.subrange(0, i as int) =~= assignment@);
    }
    while i > 0
        invariant
            0 <= i <= assignment@.len(),
            assigned_to(assignment@, *chunk) == assigned_to(assignment@.subrange(0, i as int), *chunk),
        decreases i,
    {
        proof {
            let a = assignment@.subrange(0, i as int);
            assert(a.drop_last() =~= assignment@.subrange(0, i as int - 1));
        }
        if assignment[i - 1].0 == *chunk {
            return Some(assignment[i - 1].1);
        }
        i = i - 1;
    }
    None
}

/// Builds the lookup table of an assignment.
pub fn assignment_map(assignment: &[(ChunkId, DeviceId)]) -> (r: AssignmentMap)
    ensures
        r.entries() == assignment@,
{
    proof {
        assert(assignment@.subrange(0, assignment@.len() as int) =~= assignment@);
    }
    AssignmentMap { entries: vstd::slice::slice_to_vec(assignment) }
}

/// Sum of the first `p` weights.
pub open spec fn weight_prefix(w: Seq<u64>, p: int) -> nat
    decreases p,
{
    if p <= 0 {
        0
    } else {
        weight_prefix(w, p - 1) + w[p - 1] as nat
    }
}

/// `⌊w · t / total⌋`: the share of a worker of weight `w` before the remainder
/// is handed out.
pub open spec fn base_share(w: u64, t: nat, total: nat) -> nat {
    ((w as nat) * t / total) as nat
}

/// Sum of the base shares of the first `p` workers.
pub open spec fn base_prefix(w: Seq<u64>, t: nat, total: nat, p: int) -> nat
    decreases p,
{
    if p <= 0 {
        0
    } else {
        base_prefix(w, t, total, p - 1) + base_share(w[p - 1], t, total)
    }
}

/// Number of chunks that worker `p` receives: its base share, plus one for
/// each of the first `t − Σ base shares` workers.
pub open spec fn share(w: Seq<u64>, t: nat, p: int) -> nat {
    let total = weight_prefix(w, w.len() as int);
    let rem = t - base_prefix(w, t, total, w.len() as int);
    base_share(w[p], t, total) + if p < rem {
        1nat
    } else {
        0nat
    }
}

/// Number of chunks that the first `p` workers receive.
pub open spec fn share_prefix(w: Seq<u64>, t: nat, p: int) -> nat
    decreases p,
{
    if p <= 0 {
        0
    } else {
        share_prefix(w, t, p - 1) + share(w, t, p - 1)
    }
}

/// Workers `0..p` each take a contiguous block of their share of the chunks.
pub open spec fn weighted_blocks(cs: Seq<ChunkId>, ws: Seq<DeviceId>, w: Seq<u64>, p: int) -> Seq<(ChunkId, DeviceId)>
    decreases p,
{
    if p <= 0 {
        Seq::empty()
    } else {
        weighted_blocks(cs, ws, w, p - 1) + Seq::new(
            share(w, cs.len(), p - 1),
            |j: int| (cs[share_prefix(w, cs.len(), p - 1) + j], ws[p - 1]),
        )
    }
}

/// Weighted assignment; round-robin when the weights do not match the
/// workers or sum to zero.
pub open spec fn weighted_assignment(cs: Seq<ChunkId>, ws: Seq<DeviceId>, w: Seq<u64>) -> Seq<(ChunkId, DeviceId)> {
    if w.len() != ws.len() || weight_prefix(w, w.len() as int) == 0 {
        round_robin(cs, ws)
    } else {
        weighted_blocks(cs, ws, w, ws.len() as int)
    }
}

proof fn lemma_base_bounds(w: Seq<u64>, t: nat, total: nat, p: int)
    requires
        total > 0,
        0 <= p <= w.len(),
    ensures
        base_prefix(w, t, total, p) * total <= weight_prefix(w, p) * t,
        weight_prefix(w, p) * t <= base_prefix(w, t, total, p) * total + p * (total - 1),
    decreases p,
{
    if p > 0 {
        lemma_base_bounds(w, t, total, p - 1);
        let a: int = ((w[p - 1] as nat) * t) as int;
        let f: int = base_share(w[p - 1], t, total) as int;
        let d: int = total as int;
        vstd::arithmetic::div_mod::lemma_fundamental_div_mod(a, d);
        let r: int = a % d;
        assert(f == a / d);
        assert(0 <= r < d);
        assert(a == d * f + r);
        let bp: int = base_prefix(w, t, total, p - 1) as int;
        let wp: int = weight_prefix(w, p - 1) as int;
        let wv: int = w[p - 1] as int;
        let ti: int = t as int;
        assert(base_prefix(w, t, total, p) == bp + f);
        assert(weight_prefix(w, p) == wp + wv);
        assert((bp + f) * d == bp * d + d * f) by (nonlinear_arith);
        assert((wp + wv) * ti == wp * ti + wv * ti) by (nonlinear_arith);
        assert(p * (d - 1) == (p - 1) * (d - 1) + (d - 1)) by (nonlinear_arith);
        assert(wv * ti == a);
        assert(base_prefix(w, t, total, p - 1) * total == bp * d);
        assert(weight_prefix(w, p - 1) * t == wp * ti);
        assert(base_prefix(w, t, total, p) * total == (bp + f) * d);
        assert(weight_prefix(w, p) * t == (wp + wv) * ti);
        assert(bp * d <= wp * ti);
        assert(d * f <= a);
        assert((bp + f) * d <= (wp + wv) * ti);
        assert(wp * ti <= bp * d + (p - 1) * (d - 1));
        assert((wp + wv) * ti <= (bp + f) * d + p * (d - 1));
    } else {
        assert(base_prefix(w, t, total, p) == 0);
        assert(weight_prefix(w, p) == 0);
    }
}

proof fn lemma_lt_by_factor(x: int, y: int, d: int)
    requires
        d > 0,
        x * d < y * d,
    ensures
        x < y,
{
    assert(x < y) by (nonlinear_arith)
        requires
            d > 0,
            x * d < y * d,
    ;
}

/// With a positive total weight, the base shares fall short of `t` by less
/// than the number of workers.
pub proof fn lemma_remainder_bounds(w: Seq<u64>, t: nat)
    requires
        weight_prefix(w, w.len() as int) > 0,
    ensures
        base_prefix(w, t, weight_prefix(w, w.len() as int), w.len() as int) <= t,
        t < base_prefix(w, t, weight_prefix(w, w.len() as int), w.len() as int) + w.len(),
{
    let total = weight_prefix(w, w.len() as int);
    let n = w.len() as int;
    lemma_base_bounds(w, t, total, n);
    let b = base_prefix(w, t, total, n) as int;
    let d = total as int;
    let ti = t as int;
    assert(b * d <= d * ti);
    assert(ti * d == d * ti) by (nonlinear_arith);
    assert(b <= ti) by (nonlinear_arith)
        requires
            b * d <= ti * d,
            d > 0,
    ;
    assert(n * (d - 1) == n * d - n) by (nonlinear_arith);
    assert((b + n) * d == b * d + n * d) by (nonlinear_arith);
    assert(n > 0);
    assert(ti * d < (b + n) * d);
    lemma_lt_by_factor(ti, b + n, d);
}

proof fn lemma_share_prefix(w: Seq<u64>, t: nat, p: int)
    requires
        weight_prefix(w, w.len() as int) > 0,
        0 <= p <= w.len(),
    ensures
        ({
            let total = weight_prefix(w, w.len() as int);
            let rem = t - base_prefix(w, t, total, w.len() as int);
            share_prefix(w, t, p) == base_prefix(w, t, total, p) + if p < rem {
                p
            } else {
                rem
            }
        }),
    decreases p,
{
    lemma_remainder_bounds(w, t);
    if p > 0 {
        lemma_share_prefix(w, t, p - 1);
    }
}

/// The shares add up to the number of chunks, and each lies between the base
/// share and one more.
pub proof fn lemma_shares(w: Seq<u64>, t: nat)
    requires
        weight_prefix(w, w.len() as int) > 0,
    ensures
        share_prefix(w, t, w.len() as int) == t,
        forall|p: int| 0 <= p <= w.len() ==> #[trigger] share_prefix(w, t, p) <= t,
        forall|p: int|
            0 <= p < w.len() ==> base_share(w[p], t, weight_prefix(w, w.len() as int)) <= #[trigger] share(w, t, p)
                <= base_share(w[p], t, weight_prefix(w, w.len() as int)) + 1,
{
    lemma_remainder_bounds(w, t);
    lemma_share_prefix(w, t, w.len() as int);
    assert forall|p: int| 0 <= p <= w.len() implies #[trigger] share_prefix(w, t, p) <= t by {
        lemma_share_prefix_mono(w, t, p, w.len() as int);
    }
}

proof fn lemma_share_prefix_mono(w: Seq<u64>, t: nat, p: int, q: int)
    requires
        0 <= p <= q,
    ensures
        share_prefix(w, t, p) <= share_prefix(w, t, q),
    decreases q - p,
{
    if p < q {
        lemma_share_prefix_mono(w, t, p, q - 1);
    }
}

proof fn lemma_base_prefix_mono(w: Seq<u64>, t: nat, total: nat, p: int, q: int)
    requires
        0 <= p <= q,
    ensures
        base_prefix(w, t, total, p) <= base_prefix(w, t, total, q),
    decreases q - p,
{
    if p < q {
        lemma_base_prefix_mono(w, t, total, p, q - 1);
    }
}

/// Weighted assignment: worker `p` of weight `w_p` receives `⌊w_p · T / W⌋`
/// chunks, the first `T − Σ⌊w_q · T / W⌋` workers one more, each as a
/// contiguous block in worker order (`T` chunks, `W` the total weight). With
/// weights that do not match the workers, or that sum to zero, the assignment
/// is round-robin.
pub fn assign_chunks_weighted(chunk_ids: &[ChunkId], workers: &[DeviceId], weights: &[u64]) -> (r: Vec<
    (ChunkId, DeviceId),
>)
    ensures
        r@ == weighted_assignment(chunk_ids@, workers@, weights@),
        workers@.len() > 0 ==> r@.len() == chunk_ids@.len(),
        weights@.len() == workers@.len() && weight_prefix(weights@, weights@.len() as int) > 0 ==> forall|p: int|
            0 <= p < workers@.len() ==> base_share(
                weights@[p],
                chunk_ids@.len() as nat,
                weight_prefix(weights@, weights@.len() as int),
            ) <= #[trigger] share(weights@, chunk_ids@.len() as nat, p) <= base_share(
                weights@[p],
                chunk_ids@.len() as nat,
                weight_prefix(weights@, weights@.len() as int),
            ) + 1,
{
    if weights.len() != workers.len() {
        return assign_chunks_to_peers(chunk_ids, workers);
    }
    let n = weights.len();
    let mut total: u128 = 0;
    let mut i: usize = 0;
    while i < n
        invariant
            0 <= i <= n,
            n == weights@.len(),
            total == weight_prefix(weights@, i as int),
            total <= i * 0xffff_ffff_ffff_ffffu128,
        decreases n - i,
    {
        let w = weights[i];
        proof {
            let k = i as int;
            assert(total + w <= (k + 1) * 0xffff_ffff_ffff_ffff) by (nonlinear_arith)
                requires
                    total <= k * 0xffff_ffff_ffff_ffff,
                    w <= 0xffff_ffff_ffff_ffff,
            ;
            assert((k + 1) * 0xffff_ffff_ffff_ffff < 0x1_0000_0000_0000_0000_0000_0000_0000_0000) by (
            nonlinear_arith)
                requires
                    k + 1 <= 0x1_0000_0000_0000_0000,
            ;
        }
        total = total + w as u128;
        i = i + 1;
    }
    if total == 0 {
        return assign_chunks_to_peers(chunk_ids, workers);
    }
    let ghost ws = weights@;
    let ghost tn = chunk_ids@.len() as nat;
    let t: u128 = chunk_ids.len() as u128;
    proof {
        lemma_shares(ws, tn);
        lemma_remainder_bounds(ws, tn);
    }
    let mut base_total: u128 = 0;
    let mut p: usize = 0;
    while p < n
        invariant
            0 <= p <= n,
            n == ws.len(),
            ws == weights@,
            total == weight_prefix(ws, n as int),
            total > 0,
            t == tn,
            t <= 0xffff_ffff_ffff_ffff,
            base_total == base_prefix(ws, tn, total as nat, p as int),
            base_prefix(ws, tn, total as nat, n as int) <= tn,
        decreases n - p,
    {
        let w = weights[p] as u128;
        proof {
            assert(w * t <= 0xffff_ffff_ffff_ffff * 0xffff_ffff_ffff_ffff) by (nonlinear_arith)
                requires
                    w <= 0xffff_ffff_ffff_ffff,
                    t <= 0xffff_ffff_ffff_ffff,
            ;
            lemma_base_prefix_mono(ws, tn, total as nat, p as int + 1, n as int);
        }
        base_total = base_total + (w * t) / total;
        p = p + 1;
    }
    let rem: u128 = t - base_total;
    let mut out: Vec<(ChunkId, DeviceId)> = Vec::new();
    let mut pos: usize = 0;
    p = 0;
    while p < n
        invariant
            0 <= p <= n,
            n == ws.len(),
            n == workers@.len(),
            ws == weights@,
            total == weight_prefix(ws, n as int),
            total > 0,
            t == tn,
            tn == chunk_ids@.len(),
            t <= 0xffff_ffff_ffff_ffff,
            rem == tn - base_prefix(ws, tn, total as nat, n as int),
            share_prefix(ws, tn, n as int) == tn,
            forall|q: int| 0 <= q <= n ==> #[trigger] share_prefix(ws, tn, q) <= tn,
            pos == share_prefix(ws, tn, p as int),
            out@ == weighted_blocks(chunk_ids@, workers@, ws, p as int),
        decreases n - p,
    {
        let w = weights[p] as u128;
        proof {
            assert(w * t <= 0xffff_ffff_ffff_ffff * 0xffff_ffff_ffff_ffff) by (nonlinear_arith)
                requires
                    w <= 0xffff_ffff_ffff_ffff,
                    t <= 0xffff_ffff_ffff_ffff,
            ;
        }
        let count: u128 = (w * t) / total + if (p as u128) < rem {
            1u128
        } else {
            0u128
        };
        assert(count == share(ws, tn, p as int));
        assert(share_prefix(ws, tn, p as int + 1) <= tn);
        let ghost start = pos as int;
        let mut j: u128 = 0;
        while j < count
            invariant
                0 <= j <= count,
                p < n,
                n == workers@.len(),
                tn == chunk_ids@.len(),
                start == share_prefix(ws, tn, p as int),
                start + count <= tn,
                pos == start + j,
                out@ == weighted_blocks(chunk_ids@, workers@, ws, p as int) + Seq::new(
                    j as nat,
                    |jj: int| (chunk_ids@[start + jj], workers@[p as int]),
                ),
            decreases count - j,
        {
            out.push((chunk_ids[pos], workers[p]));
            pos = pos + 1;
            j = j + 1;
            proof {
                assert(out@ =~= weighted_blocks(chunk_ids@, workers@, ws, p as int) + Seq::new(
                    j as nat,
                    |jj: int| (chunk_ids@[start + jj], workers@[p as int]),
                ));
            }
        }
        proof {
            assert(weighted_blocks(chunk_ids@, workers@, ws, p as int + 1) =~= weighted_blocks(
                chunk_ids@,
                workers@,
                ws,
                p as int,
            ) + Seq::new(count as nat, |jj: int| (chunk_ids@[start + jj], workers@[p as int])));
        }
        p = p + 1;
    }
    proof {
        lemma_blocks_len(chunk_ids@, workers@, ws, n as int);
    }
    out
}

proof fn lemma_blocks_len(cs: Seq<ChunkId>, ws: Seq<DeviceId>, w: Seq<u64>, p: int)
    requires
        p >= 0,
    ensures
        weighted_blocks(cs, ws, w, p).len() == share_prefix(w, cs.len(), p),
    decreases p,
{
    if p > 0 {
        lemma_blocks_len(cs, ws, w, p - 1);
    }
}

} // verus!
