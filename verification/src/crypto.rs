//! The library's boundary with the cryptography crates: SHA-256 digests,
//! Ed25519 key handling, signing and verification through `ring`, hex and
//! base64 encodings. Everything else in the crate is verified against the
//! contracts stated here.
use crate::Address;
use base64::Engine;
use ring::signature::KeyPair;
use vstd::prelude::*;

verus! {

/// The SHA-256 digest of a byte string: a function of the input bytes alone.
pub uninterp spec fn sha256_of(bytes: Seq<u8>) -> Seq<u8>;

/// Whether `sig` is a valid Ed25519 signature of `msg` under the public key
/// `pubkey`: verification is a function of the three byte strings alone.
pub uninterp spec fn ed25519_verifies(pubkey: Seq<u8>, msg: Seq<u8>, sig: Seq<u8>) -> bool;

#[verifier::external_type_specification]
#[verifier::external_body]
pub struct ExEd25519KeyPair(ring::signature::Ed25519KeyPair);

/// Computes the ledger's hash: a 32-byte SHA-256 digest.
///
/// Relies on ring::digest::digest with ring::digest::SHA256: the digest is
/// determined by the input bytes alone and is 32 bytes long.
#[verifier::external_body]
pub fn hash(bytes: &[u8]) -> (r: Vec<u8>)
    ensures
        r@ == sha256_of(bytes@),
        r@.len() == 32,
{
    ring::digest::digest(&ring::digest::SHA256, bytes).as_ref().to_vec()
}

/// Checks an Ed25519 signature against a public key and a message.
///
/// Relies on ring::signature::UnparsedPublicKey::verify with
/// ring::signature::ED25519: acceptance is determined by the public-key,
/// message and signature bytes alone.
#[verifier::external_body]
pub(crate) fn ed25519_verify(pubkey: &Vec<u8>, msg: &Vec<u8>, sig: &Vec<u8>) -> (r: bool)
    ensures
        r == ed25519_verifies(pubkey@, msg@, sig@),
{
    let key = ring::signature::UnparsedPublicKey::new(&ring::signature::ED25519, pubkey);
    key.verify(msg.as_slice(), sig.as_slice()).is_ok()
}

/// Signs a message with an Ed25519 key pair.
///
/// Relies on ring::signature::Ed25519KeyPair::sign: the signature is 64 bytes
/// long (an encoded curve point and a scalar of 32 bytes each).
#[verifier::external_body]
pub(crate) fn ed25519_sign(keypair: &ring::signature::Ed25519KeyPair, msg: &Vec<u8>) -> (r: Vec<
    u8,
>)
    ensures
        r@.len() == 64,
{
    keypair.sign(msg.as_slice()).as_ref().to_vec()
}

/// The raw public-key bytes of an Ed25519 key pair.
///
/// Relies on ring::signature::KeyPair::public_key for Ed25519KeyPair: the
/// public key is 32 bytes long.
#[verifier::external_body]
pub(crate) fn keypair_public_bytes(keypair: &ring::signature::Ed25519KeyPair) -> (r: Vec<u8>)
    ensures
        r@.len() == 32,
{
    keypair.public_key().as_ref().to_vec()
}

/// Generates a fresh Ed25519 key pair from the system's random source, or
/// `None` if that source fails.
///
/// Relies on ring::signature::Ed25519KeyPair::generate_pkcs8 and from_pkcs8;
/// nothing can be promised of a randomly generated key.
#[verifier::external_body]
pub fn generate_keypair() -> (r: Option<ring::signature::Ed25519KeyPair>) {
    let rng = ring::rand::SystemRandom::new();
    match ring::signature::Ed25519KeyPair::generate_pkcs8(&rng) {
        Ok(doc) => ring::signature::Ed25519KeyPair::from_pkcs8(doc.as_ref()).ok(),
        Err(_) => None,
    }
}

/// The character the lowercase hexadecimal alphabet assigns to a value below
/// sixteen.
pub open spec fn hex_digit(n: u8) -> char {
    if n < 10 {
        ((48 + n) as u8) as char
    } else {
        ((87 + n) as u8) as char
    }
}

/// The lowercase hexadecimal encoding of a byte string: two digits per byte,
/// high nibble first.
pub open spec fn hex_of(b: Seq<u8>) -> Seq<char>
    decreases b.len(),
{
    if b.len() == 0 {
        Seq::empty()
    } else {
        seq![hex_digit(b[0] / 16), hex_digit(b[0] % 16)] + hex_of(b.skip(1))
    }
}

/// Encodes bytes as a lowercase hexadecimal string.
///
/// Relies on hex::encode: lowercase, two digits per byte, high nibble first.
#[verifier::external_body]
pub(crate) fn hex_encode(b: &Vec<u8>) -> (r: String)
    ensures
        r@ == hex_of(b@),
{
    hex::encode(b)
}

/// The byte the standard base64 alphabet assigns to a value below sixty-four.
pub open spec fn b64_char(v: u8) -> u8 {
    if v < 26 {
        (65 + v) as u8  // 'A'..='Z'
    } else if v < 52 {
        (71 + v) as u8  // 'a'..='z'
    } else if v < 62 {
        (v - 4) as u8  // '0'..='9'
    } else if v == 62 {
        43  // '+'
    } else {
        47  // '/'
    }
}

/// The standard, padded base64 encoding of a byte string, as ASCII bytes:
/// each group of three bytes becomes four alphabet characters, a trailing
/// group of one or two bytes is padded with `=`.
pub open spec fn base64_of(b: Seq<u8>) -> Seq<u8>
    decreases b.len(),
{
    if b.len() == 0 {
        Seq::empty()
    } else if b.len() == 1 {
        seq![b64_char(b[0] / 4), b64_char(((b[0] % 4) * 16) as u8), 61u8, 61u8]
    } else if b.len() == 2 {
        seq![
            b64_char(b[0] / 4),
            b64_char(((b[0] % 4) * 16 + b[1] / 16) as u8),
            b64_char(((b[1] % 16) * 4) as u8),
            61u8,
        ]
    } else {
        seq![
            b64_char(b[0] / 4),
            b64_char(((b[0] % 4) * 16 + b[1] / 16) as u8),
            b64_char(((b[1] % 16) * 4 + b[2] / 64) as u8),
            b64_char((b[2] % 64) as u8),
        ] + base64_of(b.skip(3))
    }
}

/// Derives an account's address: the ASCII bytes of the standard base64
/// encoding of its public key.
///
/// Relies on base64::engine::general_purpose::STANDARD.encode: the standard
/// alphabet with `=` padding.
#[verifier::external_body]
pub fn calc_address(pub_key: &[u8]) -> (r: Address)
    ensures
        r@ == base64_of(pub_key@),
{
    base64::engine::general_purpose::STANDARD.encode(pub_key).into_bytes()
}

} // verus!
