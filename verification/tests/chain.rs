//! Chain-state behavior: genesis seeding, fork choice, orphan resolution,
//! confirmation-depth pruning, and the miner's end-to-end loop.
use ring::signature::KeyPair;
use rusted_gold::block::Block;
use rusted_gold::blockchain::Blockchain;
use rusted_gold::bytemap::ByteMap;
use rusted_gold::client::{ChainError, Client, ReceiveOutcome};
use rusted_gold::crypto::{calc_address, generate_keypair};
use rusted_gold::miner::Miner;
use rusted_gold::transaction::Transaction;

fn keypair_with_address() -> (ring::signature::Ed25519KeyPair, Vec<u8>, Vec<u8>) {
    let kp = generate_keypair().expect("key generation");
    let pk = kp.public_key().as_ref().to_vec();
    let addr = calc_address(&pk);
    (kp, pk, addr)
}

fn genesis_with(balances: Vec<(Vec<u8>, u128)>) -> Block {
    let mut map: ByteMap<u128> = ByteMap::new();
    for (k, v) in balances {
        map.insert(k, v);
    }
    Blockchain::make_genesis(map)
}

fn mined_block(reward_addr: Vec<u8>, parent: &Block) -> Block {
    let mut b = Blockchain::make_block(reward_addr, parent);
    assert!(b.mine());
    b
}

#[test]
fn set_genesis_only_once() {
    let kp = generate_keypair().expect("key generation");
    let genesis = genesis_with(vec![(b"X".to_vec(), 20)]);
    let mut client = Client::new(String::from("alice"), None, kp);
    assert!(client.last_block().is_none());
    assert_eq!(client.set_genesis(genesis.duplicate()), Ok(()));
    assert!(client.last_block().is_some());
    assert_eq!(
        client.set_genesis(genesis),
        Err(ChainError::AlreadyInitialized)
    );
}

#[test]
fn a_received_genesis_becomes_the_tip_of_an_empty_chain() {
    let kp = generate_keypair().expect("key generation");
    let genesis = genesis_with(vec![(b"X".to_vec(), 20)]);
    let g_id = genesis.hash_val();
    let mut client = Client::new(String::from("alice"), None, kp);
    assert!(client.last_block().is_none());
    assert_eq!(client.receive_block(genesis), ReceiveOutcome::Accepted);
    assert_eq!(client.tip_length(), 0);
    assert_eq!(client.last_block().unwrap().hash_val().bytes, g_id.bytes);
}

#[test]
fn receive_rejects_invalid_proof() {
    let kp = generate_keypair().expect("key generation");
    let genesis = genesis_with(vec![(b"X".to_vec(), 20)]);
    let mut client = Client::new(String::from("alice"), Some(genesis.duplicate()), kp);
    let unmined = Blockchain::make_block(b"M".to_vec(), &genesis);
    // an unmined block almost surely fails three leading zero nibbles
    if !unmined.has_valid_proof() {
        assert_eq!(client.receive_block(unmined), ReceiveOutcome::InvalidProof);
    }
}

#[test]
fn fork_choice_takes_strictly_longer_chains_only() {
    let kp = generate_keypair().expect("key generation");
    let genesis = genesis_with(vec![(b"X".to_vec(), 20)]);
    let mut client = Client::new(String::from("alice"), Some(genesis.duplicate()), kp);

    let a = mined_block(b"A".to_vec(), &genesis);
    let a_id = a.hash_val();
    assert_eq!(client.receive_block(a.duplicate()), ReceiveOutcome::Accepted);
    assert_eq!(client.tip_length(), 1);
    assert_eq!(client.last_block().unwrap().hash_val().bytes, a_id.bytes);

    // a competing block of equal length is stored but never becomes tip
    let b = mined_block(b"B".to_vec(), &genesis);
    assert_eq!(client.receive_block(b.duplicate()), ReceiveOutcome::Accepted);
    assert_eq!(client.tip_length(), 1);
    assert_eq!(client.last_block().unwrap().hash_val().bytes, a_id.bytes);

    // a strictly longer chain on the competing branch wins
    let c = mined_block(b"C".to_vec(), &b);
    let c_id = c.hash_val();
    assert_eq!(client.receive_block(c), ReceiveOutcome::Accepted);
    assert_eq!(client.tip_length(), 2);
    assert_eq!(client.last_block().unwrap().hash_val().bytes, c_id.bytes);
}

#[test]
fn mined_blocks_show_three_leading_zero_nibbles() {
    let genesis = genesis_with(vec![(b"X".to_vec(), 20)]);
    let a = mined_block(b"A".to_vec(), &genesis);
    assert!(a.has_valid_proof());
    let hex = a.hash_val().as_hex();
    assert!(hex.starts_with("000"));
}

#[test]
fn duplicate_blocks_are_no_ops() {
    let kp = generate_keypair().expect("key generation");
    let genesis = genesis_with(vec![(b"X".to_vec(), 20)]);
    let mut client = Client::new(String::from("alice"), Some(genesis.duplicate()), kp);
    let a = mined_block(b"A".to_vec(), &genesis);
    assert_eq!(client.receive_block(a.duplicate()), ReceiveOutcome::Accepted);
    assert_eq!(client.receive_block(a), ReceiveOutcome::DuplicateBlock);
}

#[test]
fn orphans_resolve_once_the_parent_arrives() {
    let kp = generate_keypair().expect("key generation");
    let genesis = genesis_with(vec![(b"X".to_vec(), 20)]);
    let mut client = Client::new(String::from("alice"), Some(genesis.duplicate()), kp);

    let a = mined_block(b"A".to_vec(), &genesis);
    let b = mined_block(b"B".to_vec(), &a);
    let b_id = b.hash_val();

    // the child arrives first: buffered, nothing stored
    assert_eq!(client.receive_block(b), ReceiveOutcome::UnknownParent);
    assert_eq!(client.tip_length(), 0);

    // the parent arrives: both are stored, the child becomes the tip,
    // exactly as if they had arrived in order
    assert_eq!(client.receive_block(a), ReceiveOutcome::Accepted);
    assert_eq!(client.tip_length(), 2);
    assert_eq!(client.last_block().unwrap().hash_val().bytes, b_id.bytes);
}

#[test]
fn a_chain_of_orphans_resolves_recursively() {
    let kp = generate_keypair().expect("key generation");
    let genesis = genesis_with(vec![(b"X".to_vec(), 20)]);
    let mut client = Client::new(String::from("alice"), Some(genesis.duplicate()), kp);

    let a = mined_block(b"A".to_vec(), &genesis);
    let b = mined_block(b"B".to_vec(), &a);
    let c = mined_block(b"C".to_vec(), &b);
    let c_id = c.hash_val();

    assert_eq!(client.receive_block(c), ReceiveOutcome::UnknownParent);
    assert_eq!(client.receive_block(b), ReceiveOutcome::UnknownParent);
    assert_eq!(client.tip_length(), 0);
    // the missing root unlocks the whole buffered chain
    assert_eq!(client.receive_block(a), ReceiveOutcome::Accepted);
    assert_eq!(client.tip_length(), 3);
    assert_eq!(client.last_block().unwrap().hash_val().bytes, c_id.bytes);
}

#[test]
fn rejected_transition_never_stores_the_block() {
    let (kp, pk, addr) = keypair_with_address();
    let genesis = genesis_with(vec![(addr.clone(), 5)]);
    let mut client = Client::new(String::from("alice"), Some(genesis.duplicate()), kp);
    // a block claiming the wrong chain length cannot be reconciled
    let mut forged = Blockchain::make_block(addr.clone(), &genesis);
    forged.chain_length = 5;
    assert!(forged.mine());
    assert_eq!(
        client.receive_block(forged),
        ReceiveOutcome::InvalidTransition
    );
    assert_eq!(client.tip_length(), 0);
    let _ = pk;
}

#[test]
fn confirmed_transaction_cannot_be_replayed() {
    // a transaction settled deep enough is pruned from pools, and its nonce
    // is consumed: re-adding it to a later block is a replay
    let (kp, pk, addr) = keypair_with_address();
    let genesis = genesis_with(vec![(addr.clone(), 20)]);
    let kp2 = generate_keypair().expect("key generation");
    let mut client = Client::new(String::from("alice"), Some(genesis.duplicate()), kp2);

    let mut b1 = Blockchain::make_block(b"M".to_vec(), &genesis);
    let mut tx = Transaction::new(
        addr.clone(),
        0,
        pk.clone(),
        vec![(b"Z".to_vec(), 5)],
        1,
        Vec::new(),
    );
    tx.sign(&kp);
    let replay = tx.duplicate();
    assert_eq!(b1.add_transaction(tx), Ok(()));
    assert!(b1.mine());
    assert_eq!(client.receive_block(b1.duplicate()), ReceiveOutcome::Accepted);

    // bury it under two more blocks so it is behind the confirmation depth
    let b2 = mined_block(b"M".to_vec(), &b1);
    assert_eq!(client.receive_block(b2.duplicate()), ReceiveOutcome::Accepted);
    let b3 = mined_block(b"M".to_vec(), &b2);
    assert_eq!(client.receive_block(b3.duplicate()), ReceiveOutcome::Accepted);
    assert_eq!(client.tip_length(), 3);
    // the confirmed tip lags the tip by the confirmation depth
    assert_eq!(client.last_confirmed_block().unwrap().chain_length, 1);

    let mut b4 = Blockchain::make_block(b"M".to_vec(), &b3);
    assert_eq!(
        b4.add_transaction(replay),
        Err(rusted_gold::block::TxError::ReplayedNonce)
    );
}

#[test]
fn post_transaction_needs_available_gold() {
    let (kp, _pk, addr) = keypair_with_address();
    let genesis = genesis_with(vec![(addr.clone(), 20)]);
    let mut client = Client::new(String::from("alice"), Some(genesis), kp);
    assert_eq!(client.confirmed_balance(), 20);
    assert_eq!(client.available_gold(), 20);

    // 10 + 5 + default fees of one each: affordable
    let t1 = client.post_transaction(vec![(b"B".to_vec(), 10)], None);
    assert!(t1.is_some());
    assert_eq!(client.available_gold(), 9);
    let t2 = client.post_transaction(vec![(b"C".to_vec(), 5)], None);
    assert!(t2.is_some());
    assert_eq!(client.available_gold(), 3);
    // the remainder cannot cover another five plus fee
    let t3 = client.post_transaction(vec![(b"D".to_vec(), 5)], None);
    assert!(t3.is_none());
    // the fee never sinks below the default
    assert_eq!(t1.unwrap().fee, 1);
    let t4 = client.post_transaction(vec![(b"E".to_vec(), 1)], Some(0));
    assert_eq!(t4.unwrap().fee, 1);
}

#[test]
fn miner_mines_and_applies_pooled_transactions() {
    let (kp, pk, addr) = keypair_with_address();
    let miner_kp = generate_keypair().expect("key generation");
    let genesis = genesis_with(vec![(addr.clone(), 20)]);
    let mut miner = Miner::new(String::from("kevin"), Some(genesis), miner_kp, None);

    let mut tx = Transaction::new(
        addr.clone(),
        0,
        pk.clone(),
        vec![(b"Z".to_vec(), 5), (b"W".to_vec(), 5)],
        1,
        Vec::new(),
    );
    tx.sign(&kp);
    miner.add_transaction(tx);
    assert_eq!(miner.initialize(), Ok(()));
    let outcome = miner.find_proof().expect("a candidate exists");
    assert_eq!(outcome, Some(ReceiveOutcome::Accepted));

    let tip = miner.last_block().expect("the mined block is the tip");
    assert_eq!(tip.chain_length, 1);
    assert_eq!(tip.balance_of(&addr), 9);
    assert_eq!(tip.balance_of(&b"Z".to_vec()), 5);
    assert_eq!(tip.balance_of(&b"W".to_vec()), 5);
    // the miner's own reward matures only in the next block
    assert_eq!(tip.balance_of(&miner.address()), 0);

    // mining one more block matures the first reward
    assert_eq!(miner.start_new_search(None), Ok(()));
    let outcome2 = miner.find_proof().expect("a candidate exists");
    assert_eq!(outcome2, Some(ReceiveOutcome::Accepted));
    let tip2 = miner.last_block().unwrap();
    assert_eq!(tip2.chain_length, 2);
    assert_eq!(tip2.balance_of(&miner.address()), 25);
}

#[test]
fn carryover_keeps_unsettled_work_only() {
    // the miner's stale candidate holds a transaction; the adopted chain
    // settled a different one; only the unsettled one is carried over
    let (kp, pk, addr) = keypair_with_address();
    let kp_client = generate_keypair().expect("key generation");
    let genesis = genesis_with(vec![(addr.clone(), 20)]);
    let mut miner = Miner::new(String::from("kevin"), Some(genesis.duplicate()), kp_client, None);

    let mut settled = Transaction::new(addr.clone(), 0, pk.clone(), vec![(b"Z".to_vec(), 1)], 1, Vec::new());
    settled.sign(&kp);
    let mut unsettled = Transaction::new(addr.clone(), 1, pk.clone(), vec![(b"W".to_vec(), 2)], 1, Vec::new());
    unsettled.sign(&kp);
    let unsettled_id = unsettled.id();

    // the new chain: genesis -> n1 (with the settled transaction) -> n2
    let mut n1 = Blockchain::make_block(b"rival".to_vec(), &genesis);
    assert_eq!(n1.add_transaction(settled.duplicate()), Ok(()));
    assert!(n1.mine());
    assert_eq!(miner.client.receive_block(n1.duplicate()), ReceiveOutcome::Accepted);
    let n2 = {
        let mut b = Blockchain::make_block(b"rival".to_vec(), &n1);
        assert!(b.mine());
        b
    };
    assert_eq!(miner.client.receive_block(n2.duplicate()), ReceiveOutcome::Accepted);

    // the stale candidate was built on the genesis and held both
    let mut stale = Blockchain::make_block(miner.address(), &genesis);
    assert_eq!(stale.add_transaction(settled.duplicate()), Ok(()));
    assert_eq!(stale.add_transaction(unsettled.duplicate()), Ok(()));

    let tip = miner.last_block().unwrap();
    let carry = miner.sync_transactions(&stale, &tip);
    assert_eq!(carry.len(), 1);
    assert_eq!(carry[0].id().bytes, unsettled_id.bytes);
}
