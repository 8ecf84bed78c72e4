//! Signed, nonce-ordered value transfers. A transaction's identity is the
//! digest of a canonical encoding of every field except the signature, and a
//! transaction is usable only once its signature validates against that
//! identity under its own public key.
use crate::bytemap::{clone_bytes, sum_vals};
use crate::crypto::{ed25519_sign, ed25519_verify, hash, sha256_of, ed25519_verifies};
use crate::{
    bytes_enc, push_bytes, push_u128, push_u32, push_u64, u128_le, u32_le, u64_le, Address,
};
use vstd::prelude::*;

verus! {

/// A value transfer: `outputs` lists the recipients and amounts, `fee` is
/// debited from the sender on top of them, `nonce` orders the sender's
/// transactions, and `data` is an opaque payload.
pub struct Transaction {
    pub from: Address,
    pub nonce: u128,
    pub pubkey_bytes: Vec<u8>,
    pub sig: Option<Vec<u8>>,
    pub outputs: Vec<(Address, u128)>,
    pub fee: u32,
    pub data: Vec<u8>,
}

/// The mathematical value of a transaction: every field as a sequence.
#[verifier::ext_equal]
pub struct TxView {
    pub from: Seq<u8>,
    pub nonce: u128,
    pub pubkey: Seq<u8>,
    pub sig: Option<Seq<u8>>,
    pub outputs: Seq<(Seq<u8>, u128)>,
    pub fee: u32,
    pub data: Seq<u8>,
}

impl View for Transaction {
    type V = TxView;

    open spec fn view(&self) -> TxView {
        TxView {
            from: self.from@,
            nonce: self.nonce,
            pubkey: self.pubkey_bytes@,
            sig: match self.sig {
                Some(s) => Some(s@),
                None => None,
            },
            outputs: self.outputs@.map_values(|p: (Address, u128)| (p.0@, p.1)),
            fee: self.fee,
            data: self.data@,
        }
    }
}

/// The sum of all output amounts plus the fee: what the sender is debited.
pub open spec fn total_output_of(t: TxView) -> int {
    sum_vals(t.outputs) + t.fee
}

/// The canonical encoding of an output list.
pub open spec fn outputs_enc(s: Seq<(Seq<u8>, u128)>) -> Seq<u8>
    decreases s.len(),
{
    if s.len() == 0 {
        Seq::empty()
    } else {
        outputs_enc(s.drop_last()) + bytes_enc(s.last().0) + u128_le(s.last().1)
    }
}

/// The canonical encoding of a transaction's identity-relevant fields, in
/// field order; the signature is excluded.
#[verifier::opaque]
pub open spec fn tx_enc(t: TxView) -> Seq<u8> {
    bytes_enc(t.from) + u128_le(t.nonce) + bytes_enc(t.pubkey) + u64_le(t.outputs.len() as u64)
        + outputs_enc(t.outputs) + u32_le(t.fee) + bytes_enc(t.data)
}

/// A transaction's identity: the digest of its canonical encoding.
pub open spec fn tx_id_of(t: TxView) -> Seq<u8> {
    sha256_of(tx_enc(t))
}

/// Whether a transaction carries a signature that validates against its own
/// identity under its own public key.
pub open spec fn sig_valid_of(t: TxView) -> bool {
    match t.sig {
        Some(s) => ed25519_verifies(t.pubkey, tx_id_of(t), s),
        None => false,
    }
}

/// Every value sum is nonnegative, and a prefix never sums to more than the
/// whole.
pub proof fn lemma_sum_prefix(s: Seq<(Seq<u8>, u128)>, i: int)
    requires
        0 <= i <= s.len(),
    ensures
        0 <= sum_vals(s.subrange(0, i)) <= sum_vals(s),
    decreases s.len(),
{
    if s.len() == 0 {
        assert(s.subrange(0, i) =~= s);
    } else if i == s.len() {
        assert(s.subrange(0, i) =~= s);
        lemma_sum_prefix(s.drop_last(), s.len() - 1);
        assert(s.drop_last().subrange(0, s.len() - 1) =~= s.drop_last());
    } else {
        assert(s.subrange(0, i) =~= s.drop_last().subrange(0, i));
        lemma_sum_prefix(s.drop_last(), i);
    }
}

impl Transaction {
    /// Builds an unsigned transaction from its fields.
    pub fn new(
        from: Address,
        nonce: u128,
        pubkey_bytes: Vec<u8>,
        outputs: Vec<(Address, u128)>,
        fee: u32,
        data: Vec<u8>,
    ) -> (r: Self)
        ensures
            r@ == (TxView {
                from: from@,
                nonce,
                pubkey: pubkey_bytes@,
                sig: None,
                outputs: outputs@.map_values(|p: (Address, u128)| (p.0@, p.1)),
                fee,
                data: data@,
            }),
    {
        Transaction { from, nonce, pubkey_bytes, sig: None, outputs, fee, data }
    }

    /// The canonical, signature-free encoding that the identity hash covers.
    pub fn serialize(&self) -> (r: Vec<u8>)
        ensures
            r@ == tx_enc(self@),
    {
        let mut out: Vec<u8> = Vec::new();
        push_bytes(&mut out, &self.from);
        push_u128(&mut out, self.nonce);
        push_bytes(&mut out, &self.pubkey_bytes);
        push_u64(&mut out, self.outputs.len() as u64);
        let ghost head = out@;
        let mut i: usize = 0;
        while i < self.outputs.len()
            invariant
                i <= self.outputs.len(),
                out@ =~= head + outputs_enc(self@.outputs.subrange(0, i as int)),
            decreases self.outputs.len() - i,
        {
            let ghost pre = self@.outputs.subrange(0, i as int);
            let ghost cur = self@.outputs.subrange(0, i as int + 1);
            push_bytes(&mut out, &self.outputs[i].0);
            push_u128(&mut out, self.outputs[i].1);
            proof {
                assert(cur.drop_last() =~= pre);
                assert(cur.last() == self@.outputs[i as int]);
                assert(self@.outputs[i as int].0 == self.outputs@[i as int].0@);
                assert(out@ =~= head + outputs_enc(cur));
            }
            i = i + 1;
        }
        push_u32(&mut out, self.fee);
        push_bytes(&mut out, &self.data);
        proof {
            reveal(tx_enc);
            assert(self@.outputs.subrange(0, self@.outputs.len() as int) =~= self@.outputs);
            assert(out@ =~= tx_enc(self@));
        }
        out
    }

    /// The transaction's identity hash.
    pub fn id(&self) -> (r: crate::Hash)
        ensures
            r@ == tx_id_of(self@),
            r@.len() == 32,
    {
        let enc = self.serialize();
        crate::Hash { bytes: hash(enc.as_slice()) }
    }

    /// Attaches a signature over the identity hash; every other field stays
    /// as it was.
    pub fn sign(&mut self, keypair: &ring::signature::Ed25519KeyPair)
        ensures
            final(self)@ == (TxView { sig: final(self)@.sig, ..old(self)@ }),
            final(self)@.sig matches Some(s) && s.len() == 64,
    {
        let id = self.id();
        let sig = ed25519_sign(keypair, &id.bytes);
        self.sig = Some(sig);
    }

    /// Checks the attached signature against the identity hash and the
    /// declared public key; a missing signature never validates.
    pub fn valid_signature(&self) -> (r: bool)
        ensures
            r == sig_valid_of(self@),
    {
        let id = self.id();
        match &self.sig {
            Some(sig) => ed25519_verify(&self.pubkey_bytes, &id.bytes, sig),
            None => false,
        }
    }

    /// The total debit the transaction asks of its sender, or `None` when
    /// that total does not fit a `u128`.
    pub fn total_output_checked(&self) -> (r: Option<u128>)
        ensures
            match r {
                Some(x) => x == total_output_of(self@) && total_output_of(self@) <= u128::MAX,
                None => total_output_of(self@) > u128::MAX,
            },
    {
        let mut sum: u128 = 0;
        let mut i: usize = 0;
        while i < self.outputs.len()
            invariant
                i <= self.outputs.len(),
                sum == sum_vals(self@.outputs.subrange(0, i as int)),
            decreases self.outputs.len() - i,
        {
            let ghost pre = self@.outputs.subrange(0, i as int);
            let ghost cur = self@.outputs.subrange(0, i as int + 1);
            proof {
                assert(cur.drop_last() =~= pre);
                assert(cur.last() == self@.outputs[i as int]);
            }
            sum = match sum.checked_add(self.outputs[i].1) {
                Some(s) => s,
                None => {
                    proof {
                        lemma_sum_prefix(self@.outputs, i as int + 1);
                    }
                    return None;
                },
            };
            i = i + 1;
        }
        proof {
            assert(self@.outputs.subrange(0, self@.outputs.len() as int) =~= self@.outputs);
        }
        match sum.checked_add(self.fee as u128) {
            Some(total) => Some(total),
            None => None,
        }
    }

    /// The total debit, on the promise that it fits.
    pub fn total_output(&self) -> (r: u128)
        requires
            total_output_of(self@) <= u128::MAX,
        ensures
            r == total_output_of(self@),
    {
        let mut sum: u128 = 0;
        let mut i: usize = 0;
        while i < self.outputs.len()
            invariant
                i <= self.outputs.len(),
                sum == sum_vals(self@.outputs.subrange(0, i as int)),
                total_output_of(self@) <= u128::MAX,
            decreases self.outputs.len() - i,
        {
            let ghost pre = self@.outputs.subrange(0, i as int);
            let ghost cur = self@.outputs.subrange(0, i as int + 1);
            proof {
                assert(cur.drop_last() =~= pre);
                assert(cur.last() == self@.outputs[i as int]);
                lemma_sum_prefix(self@.outputs, i as int + 1);
            }
            sum = sum + self.outputs[i].1;
            i = i + 1;
        }
        proof {
            assert(self@.outputs.subrange(0, self@.outputs.len() as int) =~= self@.outputs);
        }
        sum + (self.fee as u128)
    }

    /// Whether the sender's balance in the given block covers the total
    /// debit.
    pub fn sufficient_funds(&self, block: &crate::block::Block) -> (r: bool)
        requires
            block.wf(),
        ensures
            r == (total_output_of(self@) <= crate::bytemap::get_or0(
                block@.balances,
                self@.from,
            )),
    {
        match self.total_output_checked() {
            Some(total) => total <= block.balance_of(&self.from),
            None => false,
        }
    }

    /// A deep copy with the same mathematical value.
    pub fn duplicate(&self) -> (r: Self)
        ensures
            r@ == self@,
    {
        let mut outputs: Vec<(Address, u128)> = Vec::new();
        let mut i: usize = 0;
        while i < self.outputs.len()
            invariant
                i <= self.outputs.len(),
                outputs@.map_values(|p: (Address, u128)| (p.0@, p.1)) =~= self@.outputs.subrange(
                    0,
                    i as int,
                ),
            decreases self.outputs.len() - i,
        {
            outputs.push((clone_bytes(&self.outputs[i].0), self.outputs[i].1));
            i = i + 1;
        }
        let r = Transaction {
            from: clone_bytes(&self.from),
            nonce: self.nonce,
            pubkey_bytes: clone_bytes(&self.pubkey_bytes),
            sig: match &self.sig {
                Some(s) => Some(clone_bytes(s)),
                None => None,
            },
            outputs,
            fee: self.fee,
            data: clone_bytes(&self.data),
        };
        proof {
            assert(r@.outputs =~= self@.outputs);
        }
        r
    }
}

} // verus!
