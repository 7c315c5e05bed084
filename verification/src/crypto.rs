//! Crypto primitives: SHA3-256 / SHA-256 digests and base64 behind trusted
//! wrappers, and the deterministic signature scheme built on them.
//!
//! A signature over a message is the signer's public key followed by the
//! SHA3-256 digest of the domain tag, the public key and the message; the
//! public key is the SHA3-256 digest of the secret key.  Verification
//! recomputes the tag from the carried public key, so it is a pure function
//! of the transaction bytes.

use vstd::prelude::*;
use base64::Engine;
use sha3::Digest;
use vstd::string::StringSliceAdditionalSpecFns;
use crate::codec::nat_to_be;
use crate::codec::bytes_eq;
use crate::errors::CryptoError;

verus! {

/// The SHA3-256 digest of a byte string.
pub uninterp spec fn sha3_of(data: Seq<u8>) -> Seq<u8>;

/// The SHA-256 digest of a byte string.
pub uninterp spec fn sha256_of(data: Seq<u8>) -> Seq<u8>;

/// The standard base64 encoding of a byte string.
pub uninterp spec fn b64_of(data: Seq<u8>) -> Seq<char>;

/// What standard base64 decoding yields on a character string, if anything.
pub uninterp spec fn b64_dec(text: Seq<char>) -> Option<Seq<u8>>;

/// Relies on sha3::Sha3_256: a 32-byte digest determined by the input alone.
#[verifier::external_body]
pub fn sha3_bytes(data: &[u8]) -> (r: Vec<u8>)
    ensures
        r@ == sha3_of(data@),
        r@.len() == 32,
{
    sha3::Sha3_256::digest(data).to_vec()
}

/// Relies on sha2::Sha256: a 32-byte digest determined by the input alone.
#[verifier::external_body]
pub fn sha256_bytes(data: &[u8]) -> (r: Vec<u8>)
    ensures
        r@ == sha256_of(data@),
        r@.len() == 32,
{
    sha2::Sha256::digest(data).to_vec()
}

/// Relies on base64's STANDARD engine: the encoding is determined by the
/// input alone, and decoding it yields the input back.
#[verifier::external_body]
pub fn encode_base64(data: &[u8]) -> (r: String)
    ensures
        r@ == b64_of(data@),
        b64_dec(r@) == Some(data@),
{
    base64::engine::general_purpose::STANDARD.encode(data)
}

/// Relies on base64's STANDARD engine: decoding is determined by the input
/// alone.
#[verifier::external_body]
fn b64_decode_raw(text: &str) -> (r: Option<Vec<u8>>)
    ensures
        (r matches Some(v) ==> b64_dec(text@) == Some(v@)),
        (r is None ==> b64_dec(text@) is None),
{
    base64::engine::general_purpose::STANDARD.decode(text).ok()
}

/// Relies on str's PartialEq: equal exactly when the contents are equal.
#[verifier::external_body]
pub fn str_eq(a: &str, b: &str) -> (r: bool)
    ensures
        r == (a@ == b@),
{
    a == b
}

/// Relies on chrono's conversion from the std system clock for the
/// current UTC time in seconds; nothing is assumed of the value.  The
/// conversion represents clocks before 1970 as negative seconds rather
/// than failing.
#[verifier::external_body]
pub fn now_ts() -> (r: i64) {
    let now: chrono::DateTime<chrono::Utc> = std::time::SystemTime::now().into();
    now.timestamp()
}

/// Decodes base64 text, or reports that the text is not valid base64.
pub fn decode_base64(encoded: &str) -> (r: Result<Vec<u8>, CryptoError>)
    ensures
        (b64_dec(encoded@) matches Some(v) ==> r matches Ok(out) && out@ == v),
        (b64_dec(encoded@) is None ==> (r matches Err(e) && e == CryptoError::InvalidBase64)),
{
    match b64_decode_raw(encoded) {
        Some(v) => Ok(v),
        None => Err(CryptoError::InvalidBase64),
    }
}

/// Base64 of the SHA-256 digest of the text's bytes.
pub fn hash_data(data: &str) -> (r: String)
    ensures
        r@ == b64_of(sha256_of(data.spec_bytes())),
{
    let digest = sha256_bytes(data.as_bytes());
    encode_base64(digest.as_slice())
}

/// Whether `hash` is the digest string that `hash_data` yields on `data`.
pub fn verify_hash(data: &str, hash: &str) -> (r: bool)
    ensures
        r == (b64_of(sha256_of(data.spec_bytes())) == hash@),
{
    let computed = hash_data(data);
    str_eq(computed.as_str(), hash)
}

/// The domain tag prefixed to every signed transaction digest.
pub open spec fn domain_tag() -> Seq<u8> {
    seq![
        0x6fu8, 0x6du8, 0x6eu8, 0x69u8, 0x74u8, 0x65u8, 0x6eu8, 0x73u8,
        0x6fu8, 0x72u8, 0x2du8, 0x74u8, 0x78u8, 0x2du8, 0x76u8, 0x31u8,
    ]
}

/// The public key derived from a secret key.
pub open spec fn pk_of(secret: Seq<u8>) -> Seq<u8> {
    sha3_of(secret)
}

/// The address a public key denotes: the last 20 bytes of its digest.
pub open spec fn addr_of_pk(pk: Seq<u8>) -> Seq<u8> {
    sha3_of(pk).skip(12)
}

/// The authentication tag of a message under a public key.
pub open spec fn sig_tag_of(public: Seq<u8>, msg: Seq<u8>) -> Seq<u8> {
    sha3_of(domain_tag() + public + msg)
}

/// A full signature: the public key followed by the tag.
pub open spec fn sign_spec(secret: Seq<u8>, msg: Seq<u8>) -> Seq<u8> {
    pk_of(secret) + sig_tag_of(pk_of(secret), msg)
}

/// Whether `sig` is a valid signature on `msg` under `public`.
pub open spec fn sig_valid(public: Seq<u8>, msg: Seq<u8>, sig: Seq<u8>) -> bool {
    sig == public + sig_tag_of(public, msg)
}

/// A signature produced with a secret key verifies under the matching
/// public key.
pub proof fn lemma_sign_verify_identity(secret: Seq<u8>, msg: Seq<u8>)
    ensures
        sig_valid(pk_of(secret), msg, sign_spec(secret, msg)),
{
}

/// Appends all of `src` to `dst`.
pub fn push_all(dst: &mut Vec<u8>, src: &[u8])
    ensures
        final(dst)@ == old(dst)@ + src@,
{
    let mut i: usize = 0;
    while i < src.len()
        invariant
            0 <= i <= src@.len(),
            dst@ =~= old(dst)@ + src@.subrange(0, i as int),
        decreases src@.len() - i,
    {
        dst.push(src[i]);
        i += 1;
        proof {
            assert(dst@ =~= old(dst)@ + src@.subrange(0, i as int));
        }
    }
    proof {
        assert(src@.subrange(0, src@.len() as int) =~= src@);
        assert(dst@ =~= old(dst)@ + src@);
    }
}

/// The domain tag as bytes.
pub fn domain_bytes() -> (r: Vec<u8>)
    ensures
        r@ == domain_tag(),
{
    let mut r: Vec<u8> = Vec::new();
    r.push(0x6f);
    r.push(0x6d);
    r.push(0x6e);
    r.push(0x69);
    r.push(0x74);
    r.push(0x65);
    r.push(0x6e);
    r.push(0x73);
    r.push(0x6f);
    r.push(0x72);
    r.push(0x2d);
    r.push(0x74);
    r.push(0x78);
    r.push(0x2d);
    r.push(0x76);
    r.push(0x31);
    proof {
        assert(r@ =~= domain_tag());
    }
    r
}

/// Signs a message with a secret key.
pub fn sign_bytes(secret: &[u8], msg: &[u8]) -> (r: Vec<u8>)
    ensures
        r@ == sign_spec(secret@, msg@),
        r@.len() == 64,
{
    let public = sha3_bytes(secret);
    let mut buf = domain_bytes();
    push_all(&mut buf, public.as_slice());
    push_all(&mut buf, msg);
    let tag = sha3_bytes(buf.as_slice());
    let mut out = public;
    push_all(&mut out, tag.as_slice());
    out
}

/// Checks a signature against a public key and a message.
pub fn verify_sig(public: &[u8], msg: &[u8], sig: &[u8]) -> (r: bool)
    ensures
        r == sig_valid(public@, msg@, sig@),
{
    let mut buf = domain_bytes();
    push_all(&mut buf, public);
    push_all(&mut buf, msg);
    let tag = sha3_bytes(buf.as_slice());
    let mut expected: Vec<u8> = Vec::new();
    push_all(&mut expected, public);
    push_all(&mut expected, tag.as_slice());
    bytes_eq(sig, expected.as_slice())
}

/// A secret key with its derived public key.
pub struct KeyPair {
    pub secret: Vec<u8>,
    pub public: Vec<u8>,
}

impl KeyPair {
    /// The public key matches the secret key.
    pub open spec fn wf(&self) -> bool {
        self.public@ == pk_of(self.secret@)
    }

    /// Derives the key pair of a given secret key.
    pub fn from_secret(secret: Vec<u8>) -> (r: KeyPair)
        ensures
            r.wf(),
            r.secret@ == secret@,
    {
        let public = sha3_bytes(secret.as_slice());
        KeyPair { secret, public }
    }

    /// Draws a fresh key pair, seeded from the current time.
    pub fn generate() -> (r: KeyPair)
        ensures
            r.wf(),
    {
        let t = now_ts();
        let seed: u64 = if t < 0 {
            0
        } else {
            t as u64
        };
        let seed_bytes = nat_to_be(seed as u128, 8);
        let secret = sha3_bytes(seed_bytes.as_slice());
        KeyPair::from_secret(secret)
    }

    pub fn private_key(&self) -> (r: &Vec<u8>)
        ensures
            r@ == self.secret@,
    {
        &self.secret
    }

    pub fn public_key(&self) -> (r: &Vec<u8>)
        ensures
            r@ == self.public@,
    {
        &self.public
    }
}

} // verus!
