//! A minimal proof-of-work ledger: hash-linked blocks carrying full
//! balance/nonce snapshots, signed nonce-ordered transactions, a brute-force
//! mining search, and chain-state management with orphan buffering and a
//! longest-chain fork-choice rule.
#![verifier::loop_isolation(false)]

use vstd::prelude::*;

pub mod block;
pub mod blockchain;
pub mod bytemap;
pub mod client;
pub mod laws;
pub mod miner;
pub mod crypto;
pub mod transaction;

verus! {

/// Account identifier: the ASCII bytes of the base64 encoding of the
/// account's public key.
pub type Address = Vec<u8>;

pub const DEFAULT_MINING_ROUNDS: usize = 3000;

pub const DEFAULT_FEE: u32 = 1;

pub const COINBASE_REWARD: u16 = 25;

pub const CONFIRMED_DEPTH: u8 = 2;

/// Difficulty: how many leading hexadecimal zero nibbles a block's identity
/// hash must show.
pub const POW_LEADING_ZEROS: usize = 3;

/// A fixed-length digest value, produced by the ledger's hash function over
/// canonical serializations.
pub struct Hash {
    pub bytes: Vec<u8>,
}

impl View for Hash {
    type V = Seq<u8>;

    open spec fn view(&self) -> Seq<u8> {
        self.bytes@
    }
}

impl Hash {
    /// The digest as a lowercase hexadecimal string.
    pub fn as_hex(&self) -> (r: String)
        ensures
            r@ == crate::crypto::hex_of(self@),
    {
        crate::crypto::hex_encode(&self.bytes)
    }
}

/// Little-endian bytes of a `u16`.
pub open spec fn u16_le(u: u16) -> Seq<u8> {
    seq![u as u8, (u >> 8) as u8]
}

/// Little-endian bytes of a `u32`.
pub open spec fn u32_le(u: u32) -> Seq<u8> {
    seq![u as u8, (u >> 8) as u8, (u >> 16) as u8, (u >> 24) as u8]
}

/// Little-endian bytes of a `u64`.
pub open spec fn u64_le(u: u64) -> Seq<u8> {
    seq![
        u as u8,
        (u >> 8) as u8,
        (u >> 16) as u8,
        (u >> 24) as u8,
        (u >> 32) as u8,
        (u >> 40) as u8,
        (u >> 48) as u8,
        (u >> 56) as u8,
    ]
}

/// Little-endian bytes of a `u128`.
pub open spec fn u128_le(u: u128) -> Seq<u8> {
    seq![
        u as u8,
        (u >> 8) as u8,
        (u >> 16) as u8,
        (u >> 24) as u8,
        (u >> 32) as u8,
        (u >> 40) as u8,
        (u >> 48) as u8,
        (u >> 56) as u8,
        (u >> 64) as u8,
        (u >> 72) as u8,
        (u >> 80) as u8,
        (u >> 88) as u8,
        (u >> 96) as u8,
        (u >> 104) as u8,
        (u >> 112) as u8,
        (u >> 120) as u8,
    ]
}

pub fn u16_to_bytes(u: &u16) -> (r: [u8; 2])
    ensures
        r@ == u16_le(*u),
{
    let r = [*u as u8, (*u >> 8) as u8];
    proof {
        assert(r@ =~= u16_le(*u));
    }
    r
}

pub fn u32_to_bytes(u: &u32) -> (r: [u8; 4])
    ensures
        r@ == u32_le(*u),
{
    let r = [*u as u8, (*u >> 8) as u8, (*u >> 16) as u8, (*u >> 24) as u8];
    proof {
        assert(r@ =~= u32_le(*u));
    }
    r
}

pub fn u64_to_bytes(u: &u64) -> (r: [u8; 8])
    ensures
        r@ == u64_le(*u),
{
    let r = [
        *u as u8,
        (*u >> 8) as u8,
        (*u >> 16) as u8,
        (*u >> 24) as u8,
        (*u >> 32) as u8,
        (*u >> 40) as u8,
        (*u >> 48) as u8,
        (*u >> 56) as u8,
    ];
    proof {
        assert(r@ =~= u64_le(*u));
    }
    r
}

pub fn u128_to_bytes(u: &u128) -> (r: [u8; 16])
    ensures
        r@ == u128_le(*u),
{
    let r = [
        *u as u8,
        (*u >> 8) as u8,
        (*u >> 16) as u8,
        (*u >> 24) as u8,
        (*u >> 32) as u8,
        (*u >> 40) as u8,
        (*u >> 48) as u8,
        (*u >> 56) as u8,
        (*u >> 64) as u8,
        (*u >> 72) as u8,
        (*u >> 80) as u8,
        (*u >> 88) as u8,
        (*u >> 96) as u8,
        (*u >> 104) as u8,
        (*u >> 112) as u8,
        (*u >> 120) as u8,
    ];
    proof {
        assert(r@ =~= u128_le(*u));
    }
    r
}

/// A length-prefixed byte string, the unit of the canonical encodings: the
/// little-endian length followed by the bytes themselves.
pub open spec fn bytes_enc(b: Seq<u8>) -> Seq<u8> {
    u64_le(b.len() as u64) + b
}

/// Appends a little-endian `u16` to an encoding buffer.
pub(crate) fn push_u16(out: &mut Vec<u8>, u: u16)
    ensures
        final(out)@ == old(out)@ + u16_le(u),
{
    out.push(u as u8);
    out.push((u >> 8) as u8);
    proof {
        assert(out@ =~= old(out)@ + u16_le(u));
    }
}

/// Appends a little-endian `u32` to an encoding buffer.
pub(crate) fn push_u32(out: &mut Vec<u8>, u: u32)
    ensures
        final(out)@ == old(out)@ + u32_le(u),
{
    out.push(u as u8);
    out.push((u >> 8) as u8);
    out.push((u >> 16) as u8);
    out.push((u >> 24) as u8);
    proof {
        assert(out@ =~= old(out)@ + u32_le(u));
    }
}

/// Appends a little-endian `u64` to an encoding buffer.
pub(crate) fn push_u64(out: &mut Vec<u8>, u: u64)
    ensures
        final(out)@ == old(out)@ + u64_le(u),
{
    out.push(u as u8);
    out.push((u >> 8) as u8);
    out.push((u >> 16) as u8);
    out.push((u >> 24) as u8);
    out.push((u >> 32) as u8);
    out.push((u >> 40) as u8);
    out.push((u >> 48) as u8);
    out.push((u >> 56) as u8);
    proof {
        assert(out@ =~= old(out)@ + u64_le(u));
    }
}

/// Appends a little-endian `u128` to an encoding buffer.
pub(crate) fn push_u128(out: &mut Vec<u8>, u: u128)
    ensures
        final(out)@ == old(out)@ + u128_le(u),
{
    out.push(u as u8);
    out.push((u >> 8) as u8);
    out.push((u >> 16) as u8);
    out.push((u >> 24) as u8);
    out.push((u >> 32) as u8);
    out.push((u >> 40) as u8);
    out.push((u >> 48) as u8);
    out.push((u >> 56) as u8);
    out.push((u >> 64) as u8);
    out.push((u >> 72) as u8);
    out.push((u >> 80) as u8);
    out.push((u >> 88) as u8);
    out.push((u >> 96) as u8);
    out.push((u >> 104) as u8);
    out.push((u >> 112) as u8);
    out.push((u >> 120) as u8);
    proof {
        assert(out@ =~= old(out)@ + u128_le(u));
    }
}

/// Appends a length-prefixed byte string to an encoding buffer.
pub(crate) fn push_bytes(out: &mut Vec<u8>, b: &Vec<u8>)
    ensures
        final(out)@ == old(out)@ + bytes_enc(b@),
{
    push_u64(out, b.len() as u64);
    let ghost mid = out@;
    let mut i: usize = 0;
    while i < b.len()
        invariant
            i <= b.len(),
            out@ =~= mid + b@.subrange(0, i as int),
        decreases b.len() - i,
    {
        out.push(b[i]);
        i = i + 1;
    }
    proof {
        assert(out@ =~= old(out)@ + bytes_enc(b@));
    }
}

/// The byte the proof-of-work target holds at position `i` for difficulty
/// `n` (leading hexadecimal zero nibbles): the first `n / 2` bytes are zero,
/// a half-constrained byte of `0x0f` follows when `n` is odd, and every
/// later byte is unconstrained (`0xff`).
pub open spec fn pow_target_byte(n: nat, i: nat) -> u8 {
    if i < n / 2 {
        0x00
    } else if n % 2 == 1 && i == n / 2 {
        0x0f
    } else {
        0xff
    }
}

/// Builds the 32-byte proof-of-work target for difficulty
/// `POW_LEADING_ZEROS`.
pub fn calc_pow_target() -> (r: Hash)
    ensures
        r@.len() == 32,
        forall|i: int|
            0 <= i < 32 ==> r@[i] == pow_target_byte(POW_LEADING_ZEROS as nat, i as nat),
{
    let mut bytes: Vec<u8> = Vec::new();
    let mut i: usize = 0;
    while i < 32
        invariant
            i <= 32,
            bytes@.len() == i,
            forall|j: int|
                0 <= j < i ==> bytes@[j] == pow_target_byte(POW_LEADING_ZEROS as nat, j as nat),
        decreases 32 - i,
    {
        if i < POW_LEADING_ZEROS / 2 {
            bytes.push(0x00);
        } else if POW_LEADING_ZEROS % 2 == 1 && i == POW_LEADING_ZEROS / 2 {
            bytes.push(0x0f);
        } else {
            bytes.push(0xff);
        }
        i = i + 1;
    }
    Hash { bytes }
}

} // verus!
