//! Integrity: per-chunk SHA-256 digests, constant-time verification, and
//! per-peer counting of integrity failures.

use vstd::prelude::*;
use sha2::Digest;
use crate::identity::DeviceId;

verus! {

/// Default number of integrity failures after which a peer is isolated.
pub const DEFAULT_MAX_INTEGRITY_FAILURES: u32 = 3;

/// The SHA-256 digest of a byte sequence.
pub uninterp spec fn sha256_of(data: Seq<u8>) -> Seq<u8>;

/// Relies on `sha2::Sha256::digest`: the SHA-256 digest of `data`, which
/// depends on the bytes alone.
#[verifier::external_body]
pub(crate) fn sha256(data: &[u8]) -> (r: [u8; 32])
    ensures
        r@ == sha256_of(data@),
{
    sha2::Sha256::digest(data).into()
}

/// SHA-256 digest of a chunk payload.
pub fn hash_chunk(payload: &[u8]) -> (r: [u8; 32])
    ensures
        r@ == sha256_of(payload@),
{
    sha256(payload)
}

/// Compares two digests in time that does not depend on where they differ.
pub fn digests_equal(a: &[u8; 32], b: &[u8; 32]) -> (r: bool)
    ensures
        r == (a@ == b@),
{
    let mut acc: u8 = 0;
    let mut i: usize = 0;
    while i < 32
        invariant
            0 <= i <= 32,
            a@.len() == 32,
            b@.len() == 32,
            (acc == 0) <==> (forall|j: int| 0 <= j < i ==> a@[j] == b@[j]),
        decreases 32 - i,
    {
        let x = a[i];
        let y = b[i];
        let next = acc | (x ^ y);
        assert((next == 0) <==> (acc == 0 && x == y)) by (bit_vector)
            requires
                next == acc | (x ^ y),
        ;
        acc = next;
        i = i + 1;
    }
    if acc == 0 {
        assert(a@ =~= b@);
    }
    acc == 0
}

/// Checks a chunk payload against its expected digest, in constant time.
pub fn verify_chunk(payload: &[u8], expected_hash: &[u8; 32]) -> (r: bool)
    ensures
        r == (sha256_of(payload@) == expected_hash@),
{
    let h = sha256(payload);
    digests_equal(&h, expected_hash)
}

/// Counts integrity failures per peer, to detect malicious peers.
pub struct PeerTrustTracker {
    /// One entry per peer that failed at least once.
    failures: Vec<(DeviceId, u32)>,
}

impl PeerTrustTracker {
    /// Each peer has at most one entry.
    pub closed spec fn wf(&self) -> bool {
        forall|i: int, j: int|
            0 <= i < self.failures@.len() && 0 <= j < self.failures@.len() && (#[trigger] self.failures@[i]).0
                == (#[trigger] self.failures@[j]).0 ==> i == j
    }

    /// Number of integrity failures recorded against `peer`.
    pub closed spec fn failures_of(&self, peer: DeviceId) -> nat {
        if exists|i: int| 0 <= i < self.failures@.len() && self.failures@[i].0 == peer {
            self.failures@[choose|i: int| 0 <= i < self.failures@.len() && self.failures@[i].0 == peer].1 as nat
        } else {
            0
        }
    }

    pub fn new() -> (r: PeerTrustTracker)
        ensures
            r.wf(),
            forall|p: DeviceId| r.failures_of(p) == 0,
    {
        PeerTrustTracker { failures: Vec::new() }
    }

    fn find(&self, peer: &DeviceId) -> (r: Option<usize>)
        requires
            self.wf(),
        ensures
            r matches Some(i) ==> i < self.failures@.len() && self.failures@[i as int].0 == *peer
                && self.failures_of(*peer) == self.failures@[i as int].1,
            r is None ==> self.failures_of(*peer) == 0 && forall|i: int|
                0 <= i < self.failures@.len() ==> self.failures@[i].0 != *peer,
    {
        let mut i: usize = 0;
        while i < self.failures.len()
            invariant
                self.wf(),
                0 <= i <= self.failures@.len(),
                forall|j: int| 0 <= j < i ==> self.failures@[j].0 != *peer,
            decreases self.failures@.len() - i,
        {
            if self.failures[i].0 == *peer {
                proof {
                    assert(0 <= i < self.failures@.len() && self.failures@[i as int].0 == *peer);
                    let k = choose|k: int| 0 <= k < self.failures@.len() && self.failures@[k].0 == *peer;
                    assert(self.failures@[k].0 == self.failures@[i as int].0);
                }
                return Some(i);
            }
            i = i + 1;
        }
        None
    }

    /// Records an integrity failure for `peer` (the count saturates at
    /// `u32::MAX`).
    pub fn record_failure(&mut self, peer_id: DeviceId)
        requires
            old(self).wf(),
        ensures
            final(self).wf(),
            final(self).failures_of(peer_id) == (if old(self).failures_of(peer_id) < u32::MAX {
                old(self).failures_of(peer_id) + 1
            } else {
                old(self).failures_of(peer_id)
            }),
            forall|p: DeviceId| p != peer_id ==> final(self).failures_of(p) == old(self).failures_of(p),
    {
        match self.find(&peer_id) {
            Some(i) => {
                let c = self.failures[i].1;
                self.failures.set(i, (peer_id, c.saturating_add(1)));
                proof {
                    assert(self.failures@[i as int].0 == peer_id);
                    assert forall|p: DeviceId| p != peer_id implies self.failures_of(p) == old(self).failures_of(p) by {
                        if exists|k: int| 0 <= k < old(self).failures@.len() && old(self).failures@[k].0 == p {
                            let k = choose|k: int| 0 <= k < old(self).failures@.len() && old(self).failures@[k].0 == p;
                            assert(self.failures@[k].0 == p);
                        }
                    }
                }
            },
            None => {
                self.failures.push((peer_id, 1));
                proof {
                    let n = old(self).failures@.len() as int;
                    assert(self.failures@[n].0 == peer_id);
                    assert forall|p: DeviceId| p != peer_id implies self.failures_of(p) == old(self).failures_of(p) by {
                        if exists|k: int| 0 <= k < old(self).failures@.len() && old(self).failures@[k].0 == p {
                            let k = choose|k: int| 0 <= k < old(self).failures@.len() && old(self).failures@[k].0 == p;
                            assert(self.failures@[k].0 == p);
                        }
                    }
                }
            },
        }
    }

    /// Whether `peer` reached `max_failures` integrity failures.
    pub fn is_isolated(&self, peer_id: &DeviceId, max_failures: u32) -> (r: bool)
        requires
            self.wf(),
        ensures
            r == (self.failures_of(*peer_id) >= max_failures),
    {
        self.failure_count(peer_id) >= max_failures
    }

    /// Number of integrity failures recorded against `peer`.
    pub fn failure_count(&self, peer_id: &DeviceId) -> (r: u32)
        requires
            self.wf(),
        ensures
            r == self.failures_of(*peer_id),
    {
        match self.find(peer_id) {
            Some(i) => self.failures[i].1,
            None => 0,
        }
    }
}

} // verus!
