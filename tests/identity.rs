use peapod::identity::{decrypt_wire, derive_session_key, encrypt_wire, WireCryptoError};
use peapod::protocol::{handshake_bytes, parse_handshake, HANDSHAKE_SIZE};
use peapod::{DeviceId, Keypair, PublicKey, PROTOCOL_VERSION};

#[test]
fn keypair_device_id_derivation() {
    let kp = Keypair::generate();
    let id = DeviceId::from_public_key(kp.public_key().as_bytes());
    assert_eq!(id, kp.device_id());
}

#[test]
fn key_exchange_symmetric() {
    let a = Keypair::generate();
    let b = Keypair::generate();
    let secret_a = a.shared_secret(b.public_key());
    let secret_b = b.shared_secret(a.public_key());
    assert_eq!(secret_a, secret_b);
}

#[test]
fn encrypt_decrypt_roundtrip() {
    let key = [0x42u8; 32];
    let plain = b"hello peapod";
    let cipher = encrypt_wire(&key, 0, plain).unwrap();
    let dec = decrypt_wire(&key, 0, &cipher).unwrap();
    assert_eq!(dec.as_slice(), plain);
}

#[test]
fn device_id_is_sha256_prefix() {
    let id = DeviceId::from_public_key(&[9u8; 32]);
    assert_eq!(
        *id.as_bytes(),
        [140, 12, 193, 122, 4, 148, 44, 196, 248, 224, 254, 11, 48, 38, 6, 211]
    );
}

#[test]
fn session_key_hashes_label_and_secret() {
    let key = derive_session_key(&[7u8; 32]);
    let expected: [u8; 32] = [
        247, 205, 222, 214, 62, 11, 66, 128, 109, 2, 232, 75, 92, 187, 192, 4, 217, 226, 178, 81,
        81, 34, 211, 17, 33, 10, 177, 3, 156, 132, 33, 103,
    ];
    assert_eq!(key, expected);
}

#[test]
fn same_secret_same_keypair() {
    let a = Keypair::from_secret([3u8; 32]);
    let b = Keypair::from_secret([3u8; 32]);
    assert_eq!(a.public_key(), b.public_key());
    assert_eq!(a.device_id(), b.device_id());
    assert_ne!(*a.public_key().as_bytes(), [3u8; 32]);
    let c = Keypair::from_secret([4u8; 32]);
    assert_ne!(a.public_key(), c.public_key());
}

#[test]
fn ciphertext_carries_tag_and_hides_plaintext() {
    let key = [1u8; 32];
    let plain = vec![0u8; 64];
    let cipher = encrypt_wire(&key, 5, &plain).unwrap();
    assert_eq!(cipher.len(), plain.len() + 16);
    assert_ne!(&cipher[..64], plain.as_slice());
    let other_nonce = encrypt_wire(&key, 6, &plain).unwrap();
    assert_ne!(cipher, other_nonce);
}

#[test]
fn any_bit_flip_fails_decryption() {
    let key = [9u8; 32];
    let cipher = encrypt_wire(&key, 77, b"frame bytes").unwrap();
    for i in 0..cipher.len() {
        for bit in 0..8 {
            let mut bad = cipher.clone();
            bad[i] ^= 1 << bit;
            assert_eq!(decrypt_wire(&key, 77, &bad), Err(WireCryptoError::Decrypt));
        }
    }
    assert_eq!(decrypt_wire(&key, 78, &cipher), Err(WireCryptoError::Decrypt));
    assert_eq!(decrypt_wire(&key, 77, &cipher[..10]), Err(WireCryptoError::Decrypt));
}

#[test]
fn handshake_round_trip() {
    let kp = Keypair::generate();
    let bytes = handshake_bytes(&kp.device_id(), kp.public_key());
    assert_eq!(bytes.len(), HANDSHAKE_SIZE);
    assert_eq!(bytes[0], PROTOCOL_VERSION);
    let (id, pk) = parse_handshake(&bytes).unwrap();
    assert_eq!(id, kp.device_id());
    assert_eq!(pk, *kp.public_key());
    let mut wrong = bytes.clone();
    wrong[0] = PROTOCOL_VERSION + 1;
    assert!(parse_handshake(&wrong).is_none());
    assert!(parse_handshake(&bytes[..48]).is_none());
    assert_eq!(PublicKey::from_bytes([5; 32]).as_bytes(), &[5u8; 32]);
}

#[test]
fn generated_keypairs_differ() {
    let a = Keypair::generate();
    let b = Keypair::generate();
    assert_ne!(a.public_key(), b.public_key());
    assert_ne!(a.device_id(), b.device_id());
    assert_eq!(DeviceId::from_public_key(b.public_key().as_bytes()), b.device_id());
}

#[test]
fn discovery_announcement_checks_version() {
    let kp = Keypair::generate();
    let beacon = peapod::Message::Beacon {
        protocol_version: PROTOCOL_VERSION,
        device_id: kp.device_id(),
        public_key: *kp.public_key(),
        listen_port: 45679,
    };
    assert_eq!(
        peapod::protocol::discovery_announcement(&beacon),
        Some((kp.device_id(), *kp.public_key(), 45679))
    );
    let stale = peapod::Message::DiscoveryResponse {
        protocol_version: PROTOCOL_VERSION + 1,
        device_id: kp.device_id(),
        public_key: *kp.public_key(),
        listen_port: 1,
    };
    assert_eq!(peapod::protocol::discovery_announcement(&stale), None);
    let other = peapod::Message::Heartbeat { device_id: kp.device_id() };
    assert_eq!(peapod::protocol::discovery_announcement(&other), None);
}
