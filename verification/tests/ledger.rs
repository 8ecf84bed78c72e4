//! Transaction- and block-level behavior: encodings, identity hashes,
//! signatures, and the per-transaction state transition.
use base64::Engine;
use ring::signature::KeyPair;
use rusted_gold::block::{Block, TxError};
use rusted_gold::blockchain::Blockchain;
use rusted_gold::bytemap::ByteMap;
use rusted_gold::crypto::{calc_address, generate_keypair, hash};
use rusted_gold::transaction::Transaction;
use rusted_gold::{calc_pow_target, u128_to_bytes, u16_to_bytes, u32_to_bytes, u64_to_bytes};

fn keypair_with_address() -> (ring::signature::Ed25519KeyPair, Vec<u8>, Vec<u8>) {
    let kp = generate_keypair().expect("key generation");
    let pk = kp.public_key().as_ref().to_vec();
    let addr = calc_address(&pk);
    (kp, pk, addr)
}

fn genesis_with(balances: Vec<(Vec<u8>, u128)>) -> Block {
    let mut map: ByteMap<u128> = ByteMap::new();
    for (k, v) in balances {
        map.insert(k, v);
    }
    Blockchain::make_genesis(map)
}

fn signed_tx(
    kp: &ring::signature::Ed25519KeyPair,
    pk: &[u8],
    addr: &[u8],
    nonce: u128,
    outputs: Vec<(Vec<u8>, u128)>,
    fee: u32,
) -> Transaction {
    let mut tx = Transaction::new(addr.to_vec(), nonce, pk.to_vec(), outputs, fee, Vec::new());
    tx.sign(kp);
    tx
}

#[test]
fn little_endian_encodings() {
    assert_eq!(u16_to_bytes(&0x1234), [0x34, 0x12]);
    assert_eq!(u32_to_bytes(&0x12345678), [0x78, 0x56, 0x34, 0x12]);
    assert_eq!(
        u64_to_bytes(&0x0102030405060708),
        [0x08, 0x07, 0x06, 0x05, 0x04, 0x03, 0x02, 0x01]
    );
    let b = u128_to_bytes(&1);
    assert_eq!(b[0], 1);
    assert!(b[1..].iter().all(|&x| x == 0));
}

#[test]
fn pow_target_has_three_leading_zero_nibbles() {
    let t = calc_pow_target();
    assert_eq!(t.bytes.len(), 32);
    assert_eq!(t.bytes[0], 0x00);
    assert_eq!(t.bytes[1], 0x0f);
    assert!(t.bytes[2..].iter().all(|&x| x == 0xff));
}

#[test]
fn hash_is_sha256_of_input() {
    // the digest is 32 bytes and differs from the input
    let d = hash(b"hello");
    assert_eq!(d.len(), 32);
    assert_ne!(d.as_slice(), b"hello".as_slice());
    // cross-check one byte against the well-known SHA-256 of "hello"
    assert_eq!(hex::encode(&d), "2cf24dba5fb0a30e26e83b2ac5b9e29e1b161e5c1fa7425e73043362938b9824");
}

#[test]
fn as_hex_encodes_lowercase_pairs() {
    let h = rusted_gold::Hash { bytes: vec![0x01, 0x02, 0x03, 0x0f, 0x10] };
    assert_eq!(h.as_hex(), "0102030f10");
}

#[test]
fn address_is_standard_base64_of_public_key() {
    let (_kp, pk, addr) = keypair_with_address();
    let expected = base64::engine::general_purpose::STANDARD.encode(&pk);
    assert_eq!(addr, expected.into_bytes());
    assert_ne!(addr, pk);
}

#[test]
fn address_encoding_matches_known_vectors() {
    assert_eq!(calc_address(b"Man"), b"TWFu".to_vec());
    assert_eq!(calc_address(b"Ma"), b"TWE=".to_vec());
    assert_eq!(calc_address(b"M"), b"TQ==".to_vec());
    assert_eq!(calc_address(&[0xff]), b"/w==".to_vec());
}

#[test]
fn transaction_identity_excludes_signature() {
    let (kp, pk, addr) = keypair_with_address();
    let mut tx = Transaction::new(addr.clone(), 0, pk.clone(), vec![], 1, Vec::new());
    let id_before = tx.id();
    tx.sign(&kp);
    let id_after = tx.id();
    assert_eq!(id_before.bytes, id_after.bytes);
    assert_eq!(id_after.bytes.len(), 32);
}

#[test]
fn transaction_identity_covers_fields() {
    let (_kp, pk, addr) = keypair_with_address();
    let a = Transaction::new(addr.clone(), 0, pk.clone(), vec![], 1, Vec::new());
    let b = Transaction::new(addr.clone(), 1, pk.clone(), vec![], 1, Vec::new());
    assert_ne!(a.id().bytes, b.id().bytes);
}

#[test]
fn signature_validates_and_rejects_tampering() {
    let (kp, pk, addr) = keypair_with_address();
    let mut tx = Transaction::new(addr.clone(), 0, pk.clone(), vec![(addr.clone(), 1)], 1, Vec::new());
    assert!(!tx.valid_signature());
    tx.sign(&kp);
    assert!(tx.valid_signature());
    // changing a signed field invalidates the signature
    tx.nonce = 7;
    assert!(!tx.valid_signature());
}

#[test]
fn total_output_sums_outputs_and_fee() {
    let (_kp, pk, addr) = keypair_with_address();
    let tx = Transaction::new(
        addr.clone(),
        0,
        pk.clone(),
        vec![(b"Z".to_vec(), 5), (b"W".to_vec(), 5)],
        1,
        Vec::new(),
    );
    assert_eq!(tx.total_output(), 11);
    assert_eq!(tx.total_output_checked(), Some(11));
}

#[test]
fn apply_transaction_moves_value_and_nonce() {
    // sender with balance 20 pays Z five and W five with fee 1
    let (kp, pk, addr) = keypair_with_address();
    let genesis = genesis_with(vec![(addr.clone(), 20)]);
    let mut block = Blockchain::make_block(addr.clone(), &genesis);
    let tx = signed_tx(&kp, &pk, &addr, 0, vec![(b"Z".to_vec(), 5), (b"W".to_vec(), 5)], 1);
    assert_eq!(block.add_transaction(tx), Ok(()));
    assert_eq!(block.balance_of(&addr), 9);
    assert_eq!(block.balance_of(&b"Z".to_vec()), 5);
    assert_eq!(block.balance_of(&b"W".to_vec()), 5);
    assert_eq!(block.next_nonce_of(&addr), 1);
    // value conservation: the fee vanished, nothing else did
    let before: u128 = 20;
    let after = block.balance_of(&addr) + block.balance_of(&b"Z".to_vec())
        + block.balance_of(&b"W".to_vec());
    assert_eq!(before - after, 1);
}

#[test]
fn out_of_order_nonce_is_rejected_and_not_included() {
    let (kp, pk, addr) = keypair_with_address();
    let genesis = genesis_with(vec![(addr.clone(), 20)]);
    let mut block = Blockchain::make_block(addr.clone(), &genesis);
    let tx = signed_tx(&kp, &pk, &addr, 2, vec![(b"Z".to_vec(), 1)], 1);
    let tx_copy = signed_tx(&kp, &pk, &addr, 2, vec![(b"Z".to_vec(), 1)], 1);
    assert_eq!(block.add_transaction(tx), Err(TxError::OutOfOrderNonce));
    assert!(!block.contains(&tx_copy));
    assert_eq!(block.balance_of(&addr), 20);
    assert_eq!(block.next_nonce_of(&addr), 0);
}

#[test]
fn replayed_nonce_is_rejected() {
    let (kp, pk, addr) = keypair_with_address();
    let genesis = genesis_with(vec![(addr.clone(), 20)]);
    let mut block = Blockchain::make_block(addr.clone(), &genesis);
    let t0 = signed_tx(&kp, &pk, &addr, 0, vec![(b"Z".to_vec(), 1)], 1);
    assert_eq!(block.add_transaction(t0), Ok(()));
    let replay = signed_tx(&kp, &pk, &addr, 0, vec![(b"W".to_vec(), 2)], 1);
    assert_eq!(block.add_transaction(replay), Err(TxError::ReplayedNonce));
}

#[test]
fn duplicate_transaction_is_rejected() {
    let (kp, pk, addr) = keypair_with_address();
    let genesis = genesis_with(vec![(addr.clone(), 20)]);
    let mut block = Blockchain::make_block(addr.clone(), &genesis);
    let tx = signed_tx(&kp, &pk, &addr, 0, vec![(b"Z".to_vec(), 1)], 1);
    let dup = tx.duplicate();
    assert_eq!(block.add_transaction(tx), Ok(()));
    assert_eq!(block.add_transaction(dup), Err(TxError::DuplicateTransaction));
}

#[test]
fn missing_and_invalid_signatures_are_rejected() {
    let (kp, pk, addr) = keypair_with_address();
    let genesis = genesis_with(vec![(addr.clone(), 20)]);
    let mut block = Blockchain::make_block(addr.clone(), &genesis);
    let unsigned = Transaction::new(addr.clone(), 0, pk.clone(), vec![], 1, Vec::new());
    assert_eq!(
        block.add_transaction(unsigned),
        Err(TxError::MissingOrInvalidSignature)
    );
    let mut forged = signed_tx(&kp, &pk, &addr, 0, vec![(b"Z".to_vec(), 1)], 1);
    forged.fee = 3; // signed over fee 1
    assert_eq!(
        block.add_transaction(forged),
        Err(TxError::MissingOrInvalidSignature)
    );
}

#[test]
fn sufficient_funds_compares_total_to_balance() {
    let (_kp, pk, addr) = keypair_with_address();
    let genesis = genesis_with(vec![(addr.clone(), 11)]);
    let affordable = Transaction::new(
        addr.clone(),
        0,
        pk.clone(),
        vec![(b"Z".to_vec(), 10)],
        1,
        Vec::new(),
    );
    assert!(affordable.sufficient_funds(&genesis));
    let too_much = Transaction::new(
        addr.clone(),
        0,
        pk.clone(),
        vec![(b"Z".to_vec(), 11)],
        1,
        Vec::new(),
    );
    assert!(!too_much.sufficient_funds(&genesis));
}

#[test]
fn sender_must_match_its_public_key() {
    // a transaction debiting an address other than the one its key derives
    // to must never apply, even with a valid signature
    let (kp, pk, _addr) = keypair_with_address();
    let (_kp2, _pk2, other_addr) = keypair_with_address();
    let genesis = genesis_with(vec![(other_addr.clone(), 20)]);
    let mut block = Blockchain::make_block(other_addr.clone(), &genesis);
    let mut forged = Transaction::new(
        other_addr.clone(),
        0,
        pk.clone(),
        vec![(b"Z".to_vec(), 1)],
        1,
        Vec::new(),
    );
    forged.sign(&kp);
    assert!(forged.valid_signature());
    assert_eq!(
        block.add_transaction(forged),
        Err(TxError::MissingOrInvalidSignature)
    );
    assert_eq!(block.balance_of(&other_addr), 20);
}

#[test]
fn insufficient_funds_is_rejected() {
    let (kp, pk, addr) = keypair_with_address();
    let genesis = genesis_with(vec![(addr.clone(), 5)]);
    let mut block = Blockchain::make_block(addr.clone(), &genesis);
    let tx = signed_tx(&kp, &pk, &addr, 0, vec![(b"Z".to_vec(), 10)], 1);
    assert_eq!(block.add_transaction(tx), Err(TxError::InsufficientFunds));
}

#[test]
fn coinbase_reward_matures_one_block_late() {
    // genesis grants X twenty; block one rewards Y; Y's balance shows up
    // only in the block built on block one
    let (_kp, _pk, x) = keypair_with_address();
    let y = b"miner-address".to_vec();
    let genesis = genesis_with(vec![(x.clone(), 20)]);
    let block1 = Blockchain::make_block(y.clone(), &genesis);
    assert_eq!(block1.balance_of(&y), 0);
    assert_eq!(block1.balance_of(&x), 20);
    let block2 = Blockchain::make_block(x.clone(), &block1);
    assert_eq!(block2.balance_of(&y), 25);
    assert_eq!(block2.balance_of(&x), 20);
}

#[test]
fn rerun_is_idempotent() {
    let (kp, pk, addr) = keypair_with_address();
    let genesis = genesis_with(vec![(addr.clone(), 20)]);
    let mut block = Blockchain::make_block(addr.clone(), &genesis);
    let t0 = signed_tx(&kp, &pk, &addr, 0, vec![(b"Z".to_vec(), 2)], 1);
    let t1 = signed_tx(&kp, &pk, &addr, 1, vec![(b"W".to_vec(), 3)], 1);
    assert_eq!(block.add_transaction(t0), Ok(()));
    assert_eq!(block.add_transaction(t1), Ok(()));
    assert_eq!(block.rerun(&genesis), Ok(()));
    let bal_addr = block.balance_of(&addr);
    let bal_z = block.balance_of(&b"Z".to_vec());
    let bal_w = block.balance_of(&b"W".to_vec());
    let nonce = block.next_nonce_of(&addr);
    let id = block.hash_val();
    assert_eq!(block.rerun(&genesis), Ok(()));
    assert_eq!(block.balance_of(&addr), bal_addr);
    assert_eq!(block.balance_of(&b"Z".to_vec()), bal_z);
    assert_eq!(block.balance_of(&b"W".to_vec()), bal_w);
    assert_eq!(block.next_nonce_of(&addr), nonce);
    assert_eq!(block.hash_val().bytes, id.bytes);
}

#[test]
fn identity_hash_ignores_binding_order() {
    // the canonical encoding walks the maps in key order, so the same
    // logical snapshot hashes identically however it was built up
    let one = genesis_with(vec![(b"alpha".to_vec(), 1), (b"beta".to_vec(), 2)]);
    let other = genesis_with(vec![(b"beta".to_vec(), 2), (b"alpha".to_vec(), 1)]);
    assert_eq!(one.hash_val().bytes, other.hash_val().bytes);
}

#[test]
fn identity_hash_ignores_application_order_of_independent_senders() {
    // two senders' transactions applied in either order build the same
    // logical block, and the canonical encoding hashes it identically
    let (kp1, pk1, addr1) = keypair_with_address();
    let (kp2, pk2, addr2) = keypair_with_address();
    let genesis = genesis_with(vec![(addr1.clone(), 20), (addr2.clone(), 20)]);
    let t1 = signed_tx(&kp1, &pk1, &addr1, 0, vec![(b"Z".to_vec(), 3)], 1);
    let t2 = signed_tx(&kp2, &pk2, &addr2, 0, vec![(b"W".to_vec(), 4)], 1);

    let mut one = Blockchain::make_block(b"M".to_vec(), &genesis);
    assert_eq!(one.add_transaction(t1.duplicate()), Ok(()));
    assert_eq!(one.add_transaction(t2.duplicate()), Ok(()));

    let mut other = Blockchain::make_block(b"M".to_vec(), &genesis);
    assert_eq!(other.add_transaction(t2), Ok(()));
    assert_eq!(other.add_transaction(t1), Ok(()));

    assert_eq!(one.hash_val().bytes, other.hash_val().bytes);
}

#[test]
fn identity_hash_changes_with_proof() {
    let (_kp, _pk, addr) = keypair_with_address();
    let genesis = genesis_with(vec![(addr.clone(), 20)]);
    let mut block = Blockchain::make_block(addr.clone(), &genesis);
    let before = block.hash_val();
    block.proof += 1;
    let after = block.hash_val();
    assert_ne!(before.bytes, after.bytes);
}

#[test]
fn total_rewards_sums_fees() {
    let (kp, pk, addr) = keypair_with_address();
    let genesis = genesis_with(vec![(addr.clone(), 100)]);
    let mut block = Blockchain::make_block(addr.clone(), &genesis);
    assert_eq!(block.total_rewards(), 0);
    let t0 = signed_tx(&kp, &pk, &addr, 0, vec![(b"Z".to_vec(), 2)], 1);
    let t1 = signed_tx(&kp, &pk, &addr, 1, vec![(b"W".to_vec(), 3)], 4);
    assert_eq!(block.add_transaction(t0), Ok(()));
    assert_eq!(block.add_transaction(t1), Ok(()));
    assert_eq!(block.total_rewards(), 5);
}
