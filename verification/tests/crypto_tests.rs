use base64::Engine;
use omnitensor_core::crypto::KeyPair;
use omnitensor_core::crypto::decode_base64;
use omnitensor_core::crypto::encode_base64;
use omnitensor_core::crypto::hash_data;
use omnitensor_core::crypto::sha3_bytes;
use omnitensor_core::crypto::sign_bytes;
use omnitensor_core::crypto::verify_hash;
use omnitensor_core::crypto::verify_sig;
use omnitensor_core::errors::CryptoError;
use sha2::Digest;
use sha3::Digest as Sha3Digest;

#[test]
fn test_hash_data() {
    let data = "test_data";
    let hash = hash_data(data);
    assert!(verify_hash(data, &hash));
}

#[test]
fn test_base64_encoding() {
    let data = b"hello world";
    let encoded = encode_base64(data);
    let decoded = decode_base64(&encoded).unwrap();
    assert_eq!(data, &decoded[..]);
}

#[test]
fn test_hash_data_matches_reference() {
    // hash_data must be base64 of the SHA-256 digest, not the input back.
    let digest = sha2::Sha256::digest(b"test_data");
    let expected = base64::engine::general_purpose::STANDARD.encode(digest);
    assert_eq!(hash_data("test_data"), expected);
    assert!(!verify_hash("other_data", &expected));
}

#[test]
fn test_decode_base64_rejects_bad_input() {
    assert!(matches!(decode_base64("!!!not base64!!!"), Err(CryptoError::InvalidBase64)));
}

#[test]
fn test_sign_verify_identity() {
    let kp = KeyPair::from_secret(vec![1, 2, 3, 4]);
    let msg = b"a message";
    let sig = sign_bytes(kp.private_key(), msg);
    assert!(verify_sig(kp.public_key(), msg, &sig));

    // A different key or message must not verify.
    let other = KeyPair::from_secret(vec![9, 9, 9]);
    assert!(!verify_sig(other.public_key(), msg, &sig));
    assert!(!verify_sig(kp.public_key(), b"another message", &sig));
}

#[test]
fn test_sha3_differs_from_input() {
    let out = sha3_bytes(b"abc");
    assert_eq!(out.len(), 32);
    assert_ne!(out, b"abc".to_vec());
    // Cross-check against the crate directly.
    assert_eq!(out, sha3::Sha3_256::digest(b"abc").to_vec());
}
