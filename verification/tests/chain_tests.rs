use ledger_core::blockchain::{Blockchain, BlockchainError, KvStoreChain};
use ledger_core::config::TOTAL_SUPPLY;
use ledger_core::db::{KvStore, RamKvStore, RamMirrorKvStore, WriteOp};
use ledger_core::types::{Address, Block, Signature, Transaction, TransactionData};
use ledger_core::wallet::Wallet;

fn new_chain() -> KvStoreChain<RamKvStore> {
    KvStoreChain::new(RamKvStore::new()).unwrap()
}

fn mine(chain: &KvStoreChain<RamKvStore>, mut block: Block) -> Block {
    let key = chain.pow_key(block.header.number).unwrap();
    while !block.header.meets_target(&key) {
        block.header.proof_of_work.nonce += 1;
    }
    block
}

fn from_treasury(nonce: u32, dst: Address, amount: u64) -> Transaction {
    Transaction {
        src: Address::Treasury,
        nonce,
        data: TransactionData::RegularSend { dst, amount },
        fee: 0,
        sig: Signature::Unsigned,
    }
}

fn add_block(chain: &mut KvStoreChain<RamKvStore>, txs: Vec<Transaction>) -> Block {
    let wallet = Wallet::new(b"miner".to_vec());
    let draft = chain.draft_block(&txs, &wallet).unwrap();
    assert_eq!(draft.body.len(), txs.len());
    let block = mine(chain, draft);
    let height = chain.get_height().unwrap();
    chain.extend(height, &vec![block.clone()]).unwrap();
    block
}

fn snapshot(chain: &KvStoreChain<RamKvStore>, keys: &[Vec<u8>]) -> Vec<Option<Vec<u8>>> {
    keys.iter().map(|k| chain.database.get(k).unwrap()).collect()
}

#[test]
fn genesis_only() {
    let chain = new_chain();
    assert_eq!(chain.get_height().unwrap(), 1);
    assert_eq!(chain.get_account(Address::Treasury).unwrap().balance, TOTAL_SUPPLY);
    assert_eq!(chain.get_account(Address::Treasury).unwrap().nonce, 0);
    let anyone = Wallet::new(b"anyone".to_vec()).get_address();
    assert_eq!(chain.get_account(anyone).unwrap().balance, 0);
    assert_eq!(chain.get_account(anyone).unwrap().nonce, 0);
}

#[test]
fn single_transfer() {
    let mut chain = new_chain();
    let alice = Wallet::new(b"alice".to_vec()).with_nonce(1);
    let bob = Wallet::new(b"bob".to_vec());
    add_block(&mut chain, vec![from_treasury(1, alice.get_address(), 1000)]);
    assert_eq!(chain.get_account(alice.get_address()).unwrap().balance, 1000);
    assert_eq!(chain.get_account(Address::Treasury).unwrap().balance, TOTAL_SUPPLY - 1000);
    let tx = alice.create_transaction(bob.get_address(), 300, 10);
    assert!(tx.verify_signature());
    add_block(&mut chain, vec![tx]);
    assert_eq!(chain.get_height().unwrap(), 3);
    let a = chain.get_account(alice.get_address()).unwrap();
    assert_eq!(a.balance, 690);
    assert_eq!(a.nonce, 1);
    let b = chain.get_account(bob.get_address()).unwrap();
    assert_eq!(b.balance, 300);
    assert_eq!(b.nonce, 0);
}

#[test]
fn nonce_gap() {
    let mut chain = new_chain();
    let alice = Wallet::new(b"alice".to_vec());
    let bob = Wallet::new(b"bob".to_vec());
    add_block(&mut chain, vec![from_treasury(1, alice.get_address(), 1000)]);
    let keys = vec![
        b"height".to_vec(),
        b"block_0000000002".to_vec(),
        b"power_0000000002".to_vec(),
        ledger_core::blockchain::keys::account_key(&alice.get_address()),
        ledger_core::blockchain::keys::account_key(&bob.get_address()),
    ];
    let before = snapshot(&chain, &keys);
    let tx = alice.with_nonce(2).create_transaction(bob.get_address(), 300, 10);
    assert_eq!(chain.apply_tx(&tx), Err(BlockchainError::InvalidTransactionNonce));
    let last = chain.get_block(1).unwrap();
    let mut block = Block { header: last.header, body: vec![tx] };
    block.header.number = 2;
    block.header.parent_hash = last.header.hash();
    block.header.block_root = block.merkle_tree().root();
    let block = mine(&chain, block);
    assert_eq!(chain.apply_block(&block, false), Err(BlockchainError::InvalidTransactionNonce));
    assert_eq!(chain.extend(2, &vec![block]), Err(BlockchainError::InvalidTransactionNonce));
    assert_eq!(snapshot(&chain, &keys), before);
    assert_eq!(chain.get_height().unwrap(), 2);
    // the draft leaves the transaction out
    let draft = chain.draft_block(&vec![tx], &alice).unwrap();
    assert_eq!(draft.body.len(), 0);
}

#[test]
fn rollback_identity() {
    let mut chain = new_chain();
    let alice = Wallet::new(b"alice".to_vec()).with_nonce(1);
    let bob = Wallet::new(b"bob".to_vec());
    add_block(&mut chain, vec![from_treasury(1, alice.get_address(), 1000)]);
    let keys = vec![
        b"height".to_vec(),
        b"block_0000000002".to_vec(),
        b"merkle_0000000002".to_vec(),
        b"rollback_0000000002".to_vec(),
        b"power_0000000002".to_vec(),
        b"power_0000000001".to_vec(),
        b"block_0000000001".to_vec(),
        ledger_core::blockchain::keys::account_key(&alice.get_address()),
        ledger_core::blockchain::keys::account_key(&bob.get_address()),
        ledger_core::blockchain::keys::account_key(&Address::Treasury),
    ];
    let before = snapshot(&chain, &keys);
    add_block(&mut chain, vec![alice.create_transaction(bob.get_address(), 300, 10)]);
    assert_eq!(chain.get_height().unwrap(), 3);
    assert_ne!(snapshot(&chain, &keys), before);
    chain.rollback_block().unwrap();
    assert_eq!(chain.get_height().unwrap(), 2);
    assert_eq!(chain.get_account(bob.get_address()).unwrap().balance, 0);
    let a = chain.get_account(alice.get_address()).unwrap();
    assert_eq!(a.balance, 1000);
    assert_eq!(a.nonce, 0);
    assert_eq!(snapshot(&chain, &keys), before);
}

#[test]
fn self_send() {
    let mut chain = new_chain();
    let alice = Wallet::new(b"alice".to_vec()).with_nonce(1);
    add_block(&mut chain, vec![from_treasury(1, alice.get_address(), 1000)]);
    let tx = alice.create_transaction(alice.get_address(), 100, 5);
    assert_eq!(chain.apply_tx(&tx), Ok(()));
    let a = chain.get_account(alice.get_address()).unwrap();
    assert_eq!(a.balance, 995);
    assert_eq!(a.nonce, 1);
}

#[test]
fn fork_adoption() {
    // the local chain: genesis and two more blocks
    let mut local = new_chain();
    let alice = Wallet::new(b"alice".to_vec());
    let bob = Wallet::new(b"bob".to_vec());
    add_block(&mut local, vec![from_treasury(1, alice.get_address(), 1)]);
    add_block(&mut local, vec![from_treasury(2, alice.get_address(), 2)]);
    assert_eq!(local.get_height().unwrap(), 3);
    let local_power = local.get_power().unwrap();

    // a peer's chain: genesis and four other blocks
    let mut peer = new_chain();
    let x = add_block(&mut peer, vec![from_treasury(1, bob.get_address(), 10)]);
    let y = add_block(&mut peer, vec![from_treasury(2, bob.get_address(), 20)]);
    let z = add_block(&mut peer, vec![]);
    let w = add_block(&mut peer, vec![from_treasury(3, bob.get_address(), 30)]);
    let peer_power = peer.get_power().unwrap();
    assert!(peer_power > local_power);

    let blocks = vec![x, y, z, w];
    let headers: Vec<_> = blocks.iter().map(|b| b.header).collect();
    assert_eq!(local.will_extend(1, &headers), Ok(true));
    assert_eq!(local.extend(1, &blocks), Ok(()));
    assert_eq!(local.get_height().unwrap(), 5);
    assert_eq!(local.get_power().unwrap(), peer_power);
    assert_eq!(local.get_blocks(1, None).unwrap(), blocks);
    assert_eq!(local.get_blocks(0, None).unwrap(), peer.get_blocks(0, None).unwrap());
    assert_eq!(local.get_account(alice.get_address()).unwrap().balance, 0);
    assert_eq!(local.get_account(bob.get_address()).unwrap().balance, 60);
    assert_eq!(local.get_account(Address::Treasury).unwrap().nonce, 3);
}

#[test]
fn speculation_leaves_the_store() {
    let mut chain = new_chain();
    let alice = Wallet::new(b"alice".to_vec());
    add_block(&mut chain, vec![from_treasury(1, alice.get_address(), 1000)]);
    let keys = vec![
        b"height".to_vec(),
        b"block_0000000002".to_vec(),
        ledger_core::blockchain::keys::account_key(&alice.get_address()),
        ledger_core::blockchain::keys::account_key(&Address::Treasury),
    ];
    let before = snapshot(&chain, &keys);
    let draft = chain.draft_block(&vec![from_treasury(2, alice.get_address(), 5)], &alice).unwrap();
    let block = mine(&chain, draft);
    {
        let mut fork = chain.fork_on_ram();
        assert_eq!(fork.apply_block(&block, false), Ok(()));
        assert_eq!(fork.get_height().unwrap(), 3);
        assert_eq!(fork.get_account(alice.get_address()).unwrap().balance, 1005);
        let ops: Vec<WriteOp> = fork.database.to_ops();
        assert_eq!(ops.len(), 7);
    }
    assert_eq!(snapshot(&chain, &keys), before);
    assert_eq!(chain.get_height().unwrap(), 2);
    let mirror = RamMirrorKvStore::new(&chain.database);
    assert_eq!(mirror.get(b"height").unwrap(), chain.database.get(b"height").unwrap());
}
