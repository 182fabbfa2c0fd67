//! Device identity: public keys and device ids.

use vstd::prelude::*;
use vstd::bytes::{spec_u64_to_le_bytes, u64_to_le_bytes};
use chacha20poly1305::aead::{Aead, KeyInit};
use crate::bytes::bytes_equal;
use crate::integrity::{sha256, sha256_of};

verus! {

/// A device's X25519 public key (32 bytes).
#[derive(Debug, Clone, Copy, Eq, Hash)]
pub struct PublicKey(pub [u8; 32]);

impl PartialEq for PublicKey {
    fn eq(&self, o: &PublicKey) -> (r: bool) {
        let r = bytes_equal(self.0.as_slice(), o.0.as_slice());
        proof {
            if r {
                assert(self.0 =~= o.0);
            }
        }
        r
    }
}

impl vstd::std_specs::cmp::PartialEqSpecImpl for PublicKey {
    open spec fn obeys_eq_spec() -> bool {
        true
    }

    open spec fn eq_spec(&self, o: &PublicKey) -> bool {
        self.0 == o.0
    }
}

/// A device id: the first 16 bytes of the SHA-256 digest of the device's public key.
#[derive(Debug, Clone, Copy, Eq, Hash)]
pub struct DeviceId(pub [u8; 16]);

impl PartialEq for DeviceId {
    fn eq(&self, o: &DeviceId) -> (r: bool) {
        let r = bytes_equal(self.0.as_slice(), o.0.as_slice());
        proof {
            if r {
                assert(self.0 =~= o.0);
            }
        }
        r
    }
}

impl vstd::std_specs::cmp::PartialEqSpecImpl for DeviceId {
    open spec fn obeys_eq_spec() -> bool {
        true
    }

    open spec fn eq_spec(&self, o: &DeviceId) -> bool {
        self.0 == o.0
    }
}


impl PublicKey {
    pub fn as_bytes(&self) -> (r: &[u8; 32])
        ensures
            *r == self.0,
    {
        &self.0
    }

    /// The public key with these bytes.
    pub fn from_bytes(bytes: [u8; 32]) -> (r: PublicKey)
        ensures
            r.0 == bytes,
    {
        PublicKey(bytes)
    }
}

/// The device id of a public key: the first 16 bytes of its SHA-256 digest.
pub open spec fn device_id_of(public: Seq<u8>) -> Seq<u8> {
    sha256_of(public).subrange(0, 16)
}

impl DeviceId {
    pub fn as_bytes(&self) -> (r: &[u8; 16])
        ensures
            *r == self.0,
    {
        &self.0
    }

    /// The device id with these bytes.
    pub fn from_bytes(bytes: [u8; 16]) -> (r: DeviceId)
        ensures
            r.0 == bytes,
    {
        DeviceId(bytes)
    }

    /// Derives the device id of a public key.
    pub fn from_public_key(public: &[u8; 32]) -> (r: DeviceId)
        ensures
            r.0@ == device_id_of(public@),
    {
        let digest = sha256(public.as_slice());
        let mut id: [u8; 16] = [0u8; 16];
        let mut i: usize = 0;
        while i < 16
            invariant
                0 <= i <= 16,
                digest@ == sha256_of(public@),
                forall|j: int| 0 <= j < i ==> id@[j] == digest@[j],
            decreases 16 - i,
        {
            id[i] = digest[i];
            i = i + 1;
        }
        proof {
            assert(id@ =~= device_id_of(public@));
        }
        DeviceId(id)
    }
}

/// The X25519 public key of a secret scalar.
pub uninterp spec fn x25519_public_of(secret: Seq<u8>) -> Seq<u8>;

/// The X25519 shared secret of a secret scalar and a peer's public key.
pub uninterp spec fn x25519_shared_of(secret: Seq<u8>, peer_public: Seq<u8>) -> Seq<u8>;

/// Relies on `x25519_dalek::StaticSecret::random_from_rng` with the operating
/// system's CSPRNG (`rand::rngs::OsRng`): 32 random bytes, of which nothing
/// can be promised.
#[verifier::external_body]
fn random_secret() -> (r: [u8; 32]) {
    x25519_dalek::StaticSecret::random_from_rng(rand::rngs::OsRng).to_bytes()
}

/// Relies on `x25519_dalek::PublicKey::from(&StaticSecret)`: the public key of
/// a secret, which depends on the secret alone.
#[verifier::external_body]
fn x25519_public(secret: &[u8; 32]) -> (r: [u8; 32])
    ensures
        r@ == x25519_public_of(secret@),
{
    x25519_dalek::PublicKey::from(&x25519_dalek::StaticSecret::from(*secret)).to_bytes()
}

/// Relies on `x25519_dalek::StaticSecret::diffie_hellman`: the shared secret
/// of a secret and a public key, which depends on those alone.
#[verifier::external_body]
fn x25519_shared(secret: &[u8; 32], peer_public: &[u8; 32]) -> (r: [u8; 32])
    ensures
        r@ == x25519_shared_of(secret@, peer_public@),
{
    x25519_dalek::StaticSecret::from(*secret).diffie_hellman(
        &x25519_dalek::PublicKey::from(*peer_public),
    ).to_bytes()
}

/// An X25519 keypair with the device id derived from its public key. The
/// secret never leaves the keypair.
pub struct Keypair {
    secret: [u8; 32],
    public: PublicKey,
    device_id: DeviceId,
}

impl Keypair {
    /// The public key belongs to the secret and the device id to the public key.
    #[verifier::type_invariant]
    pub closed spec fn wf(&self) -> bool {
        &&& self.public.0@ == x25519_public_of(self.secret@)
        &&& self.device_id.0@ == device_id_of(self.public.0@)
    }

    pub closed spec fn secret_bytes(&self) -> Seq<u8> {
        self.secret@
    }

    pub closed spec fn public_spec(&self) -> PublicKey {
        self.public
    }

    pub closed spec fn device_id_spec(&self) -> DeviceId {
        self.device_id
    }

    /// The keypair of a given secret scalar.
    pub fn from_secret(secret: [u8; 32]) -> (r: Keypair)
        ensures
            r.wf(),
            r.secret_bytes() == secret@,
    {
        let public = PublicKey(x25519_public(&secret));
        let device_id = DeviceId::from_public_key(&public.0);
        Keypair { secret, public, device_id }
    }

    /// A new keypair from the operating system's random generator.
    pub fn generate() -> (r: Keypair)
        ensures
            r.wf(),
    {
        Keypair::from_secret(random_secret())
    }

    pub fn public_key(&self) -> (r: &PublicKey)
        ensures
            *r == self.public_spec(),
            r.0@ == x25519_public_of(self.secret_bytes()),
    {
        proof {
            use_type_invariant(self);
        }
        &self.public
    }

    pub fn device_id(&self) -> (r: DeviceId)
        ensures
            r == self.device_id_spec(),
            r.0@ == device_id_of(self.public_spec().0@),
    {
        proof {
            use_type_invariant(self);
        }
        self.device_id
    }

    /// The X25519 shared secret with another device's public key.
    pub fn shared_secret(&self, other_public: &PublicKey) -> (r: [u8; 32])
        ensures
            r@ == x25519_shared_of(self.secret_bytes(), other_public.0@),
    {
        x25519_shared(&self.secret, &other_public.0)
    }
}

/// Domain label of session-key derivation.
pub open spec fn session_label() -> Seq<u8> {
    seq![112u8, 101, 97, 112, 111, 100, 45, 115, 101, 115, 115, 105, 111, 110, 45, 118, 49]
}

/// Session key of a pairwise shared secret: SHA-256 over the label
/// `peapod-session-v1` followed by the secret.
pub fn derive_session_key(shared_secret: &[u8; 32]) -> (r: [u8; 32])
    ensures
        r@ == sha256_of(session_label() + shared_secret@),
{
    let mut input: Vec<u8> = vec![112u8, 101, 97, 112, 111, 100, 45, 115, 101, 115, 115, 105, 111, 110, 45, 118, 49];
    assert(input@ =~= session_label());
    let mut i: usize = 0;
    while i < 32
        invariant
            0 <= i <= 32,
            shared_secret@.len() == 32,
            input@ =~= session_label() + shared_secret@.subrange(0, i as int),
        decreases 32 - i,
    {
        input.push(shared_secret[i]);
        i = i + 1;
        proof {
            assert(input@ =~= session_label() + shared_secret@.subrange(0, i as int));
        }
    }
    proof {
        assert(shared_secret@.subrange(0, 32) =~= shared_secret@);
    }
    sha256(input.as_slice())
}

/// The 12-byte AEAD nonce of a 64-bit counter: four zero bytes, then the
/// counter in little-endian order.
pub open spec fn wire_nonce(nonce: u64) -> Seq<u8> {
    seq![0u8, 0u8, 0u8, 0u8] + spec_u64_to_le_bytes(nonce)
}

fn wire_nonce_bytes(nonce: u64) -> (r: Vec<u8>)
    ensures
        r@ == wire_nonce(nonce),
        r@.len() == 12,
{
    let mut out: Vec<u8> = vec![0u8, 0u8, 0u8, 0u8];
    let le = u64_to_le_bytes(nonce);
    let mut i: usize = 0;
    while i < 8
        invariant
            0 <= i <= 8,
            le@ == spec_u64_to_le_bytes(nonce),
            le@.len() == 8,
            out@ =~= seq![0u8, 0u8, 0u8, 0u8] + le@.subrange(0, i as int),
        decreases 8 - i,
    {
        out.push(le[i]);
        i = i + 1;
        proof {
            assert(out@ =~= seq![0u8, 0u8, 0u8, 0u8] + le@.subrange(0, i as int));
        }
    }
    proof {
        assert(le@.subrange(0, 8) =~= le@);
    }
    out
}

/// The ChaCha20-Poly1305 ciphertext (with its 16-byte tag) of a plaintext.
pub uninterp spec fn chacha_seal_of(key: Seq<u8>, nonce: Seq<u8>, plaintext: Seq<u8>) -> Seq<u8>;

/// The plaintext that ChaCha20-Poly1305 recovers from an authentic ciphertext.
pub uninterp spec fn chacha_open_of(key: Seq<u8>, nonce: Seq<u8>, ciphertext: Seq<u8>) -> Seq<u8>;

/// Whether a ciphertext's tag authenticates it under a key and nonce.
pub uninterp spec fn chacha_authentic_of(key: Seq<u8>, nonce: Seq<u8>, ciphertext: Seq<u8>) -> bool;

/// A plaintext short enough for one ChaCha20-Poly1305 message.
pub open spec fn sealable(plaintext: Seq<u8>) -> bool {
    plaintext.len() / 64 < 0xffff_ffff
}

/// Relies on `chacha20poly1305::ChaCha20Poly1305::encrypt` (via `aead::Aead`):
/// it fails only when the plaintext has `u32::MAX` or more 64-byte blocks, and
/// otherwise returns the ciphertext followed by the 16-byte tag.
#[verifier::external_body]
fn chacha_seal(key: &[u8; 32], nonce: &[u8], plaintext: &[u8]) -> (r: Option<Vec<u8>>)
    requires
        nonce@.len() == 12,
    ensures
        r is Some <==> sealable(plaintext@),
        r matches Some(c) ==> c@ == chacha_seal_of(key@, nonce@, plaintext@) && c@.len()
            == plaintext@.len() + 16,
{
    let cipher = chacha20poly1305::ChaCha20Poly1305::new(chacha20poly1305::Key::from_slice(key));
    cipher.encrypt(chacha20poly1305::Nonce::from_slice(nonce), plaintext).ok()
}

/// Relies on `chacha20poly1305::ChaCha20Poly1305::decrypt` (via `aead::Aead`):
/// it succeeds exactly when the tag authenticates the input (input shorter
/// than the 16-byte tag never does), returns the input without its tag,
/// decrypted, and so gives back the plaintext of any ciphertext that
/// `encrypt` produced under the same key and nonce.
#[verifier::external_body]
fn chacha_open(key: &[u8; 32], nonce: &[u8], ciphertext: &[u8]) -> (r: Option<Vec<u8>>)
    requires
        nonce@.len() == 12,
    ensures
        r is Some <==> chacha_authentic_of(key@, nonce@, ciphertext@),
        ciphertext@.len() < 16 ==> r is None,
        r matches Some(p) ==> p@ == chacha_open_of(key@, nonce@, ciphertext@) && p@.len() + 16
            == ciphertext@.len(),
        forall|p: Seq<u8>|
            sealable(p) && ciphertext@ == #[trigger] chacha_seal_of(key@, nonce@, p) ==> r is Some && r->0@ == p,
{
    let cipher = chacha20poly1305::ChaCha20Poly1305::new(chacha20poly1305::Key::from_slice(key));
    cipher.decrypt(chacha20poly1305::Nonce::from_slice(nonce), ciphertext).ok()
}

/// Failure of wire encryption or decryption.
#[derive(Debug, Clone, Copy, PartialEq, Eq, Structural)]
pub enum WireCryptoError {
    /// The plaintext is too long for one ChaCha20-Poly1305 message.
    Encrypt,
    /// The ciphertext is not authentic (or is shorter than its tag).
    Decrypt,
}

/// Encrypts a frame with ChaCha20-Poly1305 under `key` and the nonce of
/// counter `nonce`; the result is the ciphertext followed by a 16-byte tag.
pub fn encrypt_wire(key: &[u8; 32], nonce: u64, plaintext: &[u8]) -> (r: Result<Vec<u8>, WireCryptoError>)
    ensures
        r is Ok <==> sealable(plaintext@),
        r matches Ok(c) ==> c@ == chacha_seal_of(key@, wire_nonce(nonce), plaintext@) && c@.len()
            == plaintext@.len() + 16,
        r matches Err(e) ==> e == WireCryptoError::Encrypt,
{
    let n = wire_nonce_bytes(nonce);
    match chacha_seal(key, n.as_slice(), plaintext) {
        Some(c) => Ok(c),
        None => Err(WireCryptoError::Encrypt),
    }
}

/// Decrypts and authenticates a frame sealed by `encrypt_wire` with the same
/// key and counter.
pub fn decrypt_wire(key: &[u8; 32], nonce: u64, ciphertext: &[u8]) -> (r: Result<Vec<u8>, WireCryptoError>)
    ensures
        r is Ok <==> chacha_authentic_of(key@, wire_nonce(nonce), ciphertext@),
        ciphertext@.len() < 16 ==> r is Err,
        r matches Ok(p) ==> p@ == chacha_open_of(key@, wire_nonce(nonce), ciphertext@) && p@.len()
            + 16 == ciphertext@.len(),
        forall|p: Seq<u8>|
            sealable(p) && ciphertext@ == #[trigger] chacha_seal_of(key@, wire_nonce(nonce), p) ==> r is Ok
                && r->Ok_0@ == p,
        r matches Err(e) ==> e == WireCryptoError::Decrypt,
{
    let n = wire_nonce_bytes(nonce);
    match chacha_open(key, n.as_slice(), ciphertext) {
        Some(p) => Ok(p),
        None => Err(WireCryptoError::Decrypt),
    }
}

} // verus!
