use ledger_core::blockchain::keys::{account_key, block_key, height_key, merkle_key, power_key, rollback_key};
use ledger_core::blockchain::{Blockchain, BlockchainError, KvStoreChain};
use ledger_core::codec::{
    decode_account, decode_block, decode_ops, decode_u64, encode_account, encode_block, encode_ops,
    encode_u64,
};
use ledger_core::config::genesis::get_genesis_block;
use ledger_core::config::{base_key, GENESIS_TARGET, TOTAL_SUPPLY};
use ledger_core::db::{KvStore, KvStoreError, RamKvStore, WriteOp};
use ledger_core::merkle::MerkleTree;
use ledger_core::types::{Account, Address, Block, Header, Signature, Transaction, TransactionData};
use ledger_core::wallet::Wallet;

type Chain = KvStoreChain<RamKvStore>;

fn new_chain() -> Chain {
    KvStoreChain::new(RamKvStore::new()).unwrap()
}

fn mine(chain: &Chain, mut block: Block) -> Block {
    let key = chain.pow_key(block.header.number).unwrap();
    while !block.header.meets_target(&key) {
        block.header.proof_of_work.nonce += 1;
    }
    block
}

fn unmine(chain: &Chain, mut block: Block) -> Block {
    let key = chain.pow_key(block.header.number).unwrap();
    while block.header.meets_target(&key) {
        block.header.proof_of_work.nonce += 1;
    }
    block
}

fn wallet(i: u8) -> Wallet {
    Wallet::new(vec![i; 3])
}

fn person(i: u8) -> Address {
    wallet(i).get_address()
}

/// A send from person `i`, signed.
fn send(i: u8, nonce: u32, dst: Address, amount: u64, fee: u64) -> Transaction {
    wallet(i).with_nonce(nonce).create_transaction(dst, amount, fee)
}

/// A send that is not signed.
fn plain(src: Address, nonce: u32, dst: Address, amount: u64, fee: u64) -> Transaction {
    Transaction {
        src,
        nonce,
        data: TransactionData::RegularSend { dst, amount },
        fee,
        sig: Signature::Unsigned,
    }
}

fn from_treasury(nonce: u32, dst: Address, amount: u64) -> Transaction {
    plain(Address::Treasury, nonce, dst, amount, 0)
}

fn draft(chain: &Chain, txs: Vec<Transaction>) -> Block {
    mine(chain, chain.draft_block(&txs, &Wallet::new(vec![])).unwrap())
}

fn add_block(chain: &mut Chain, txs: Vec<Transaction>) -> Block {
    let block = draft(chain, txs);
    chain.apply_block(&block, false).unwrap();
    block
}

fn chain_keys(height: u64, people: &[Address]) -> Vec<Vec<u8>> {
    let mut keys = vec![height_key()];
    for i in 0..height + 2 {
        keys.push(block_key(i));
        keys.push(merkle_key(i));
        keys.push(rollback_key(i));
        keys.push(power_key(i));
    }
    for p in people {
        keys.push(account_key(p));
    }
    keys
}

fn snapshot(chain: &Chain, keys: &[Vec<u8>]) -> Vec<Option<Vec<u8>>> {
    keys.iter().map(|k| chain.database.get(k).unwrap()).collect()
}

fn total(chain: &Chain, people: &[Address]) -> u128 {
    people.iter().map(|p| chain.get_account(*p).unwrap().balance as u128).sum()
}

#[test]
fn new_chain_holds_the_first_block() {
    let chain = new_chain();
    assert_eq!(chain.get_height(), Ok(1));
    assert_eq!(chain.get_block(0).unwrap(), get_genesis_block());
    assert_eq!(chain.get_blocks(0, None).unwrap(), vec![get_genesis_block()]);
    assert_eq!(chain.get_headers(0, None).unwrap(), vec![get_genesis_block().header]);
    let genesis = get_genesis_block();
    assert_eq!(genesis.header.number, 0);
    assert_eq!(genesis.header.parent_hash, [0u8; 32]);
    assert_eq!(genesis.header.proof_of_work.target, GENESIS_TARGET);
    assert_eq!(genesis.body.len(), 0);
    assert_eq!(chain.get_power().unwrap(), genesis.header.power(&base_key()));
    assert_eq!(chain.database.get(&height_key()).unwrap(), Some(encode_u64(1)));
    assert_eq!(chain.database.get(&block_key(0)).unwrap(), Some(encode_block(&genesis)));
    assert_eq!(chain.database.get(&merkle_key(0)).unwrap(), Some(genesis.merkle_tree().encode()));
    assert_eq!(
        chain.database.get(&rollback_key(0)).unwrap(),
        Some(encode_ops(&vec![WriteOp::Remove(height_key()), WriteOp::Remove(power_key(0))]))
    );
    assert_eq!(chain.database.get(&account_key(&Address::Treasury)).unwrap(), None);
}

#[test]
fn new_chain_on_a_store_with_blocks_takes_it_as_it_is() {
    let mut chain = new_chain();
    add_block(&mut chain, vec![from_treasury(1, person(1), 5)]);
    let keys = chain_keys(2, &[person(1), Address::Treasury]);
    let before = snapshot(&chain, &keys);
    let again = KvStoreChain::new(chain.database).unwrap();
    assert_eq!(again.get_height(), Ok(2));
    assert_eq!(snapshot(&again, &keys), before);
}

#[test]
fn empty_store_reads() {
    let chain = KvStoreChain { database: RamKvStore::new() };
    assert_eq!(chain.get_height(), Ok(0));
    assert_eq!(chain.get_power(), Ok(0));
    assert_eq!(chain.get_block(0), Err(BlockchainError::BlockNotFound));
    assert_eq!(chain.get_blocks(0, None), Ok(vec![]));
    assert_eq!(chain.next_difficulty(), Err(BlockchainError::BlockNotFound));
    assert_eq!(chain.draft_block(&vec![], &Wallet::new(vec![])), Err(BlockchainError::BlockNotFound));
    assert_eq!(chain.will_extend(1, &vec![]), Err(BlockchainError::ExtendFromFuture));
    assert_eq!(chain.get_account(Address::Treasury), Ok(Account { balance: TOTAL_SUPPLY, nonce: 0 }));
}

#[test]
fn block_writes_five_entries_and_the_accounts() {
    let mut chain = new_chain();
    let power_before = chain.get_power().unwrap();
    let block = add_block(&mut chain, vec![from_treasury(1, person(1), 1000)]);
    assert_eq!(chain.database.get(&height_key()).unwrap(), Some(encode_u64(2)));
    assert_eq!(chain.database.get(&block_key(1)).unwrap(), Some(encode_block(&block)));
    assert_eq!(chain.database.get(&merkle_key(1)).unwrap(), Some(block.merkle_tree().encode()));
    let power = power_before + block.header.power(&base_key());
    assert_eq!(chain.database.get(&power_key(1)).unwrap(), Some(encode_u64(power)));
    assert_eq!(chain.get_power(), Ok(power));
    let journal = vec![
        WriteOp::Remove(account_key(&person(1))),
        WriteOp::Remove(account_key(&Address::Treasury)),
        WriteOp::Put(height_key(), encode_u64(1)),
        WriteOp::Remove(power_key(1)),
    ];
    assert_eq!(chain.database.get(&rollback_key(1)).unwrap(), Some(encode_ops(&journal)));
    assert_eq!(
        chain.database.get(&account_key(&person(1))).unwrap(),
        Some(encode_account(&Account { balance: 1000, nonce: 0 }))
    );
    assert_eq!(
        chain.database.get(&account_key(&Address::Treasury)).unwrap(),
        Some(encode_account(&Account { balance: TOTAL_SUPPLY - 1000, nonce: 1 }))
    );
}

#[test]
fn tx_ops_of_a_send() {
    let chain = new_chain();
    let tx = plain(Address::Treasury, 1, person(1), 300, 10);
    let ops = chain.tx_ops(&tx, true).unwrap();
    assert_eq!(
        ops,
        vec![
            WriteOp::Put(account_key(&person(1)), encode_account(&Account { balance: 300, nonce: 0 })),
            WriteOp::Put(
                account_key(&Address::Treasury),
                encode_account(&Account { balance: TOTAL_SUPPLY - 310, nonce: 1 })
            ),
        ]
    );
    assert_eq!(chain.tx_ops(&tx, false), Err(BlockchainError::SignatureError));
    let own = plain(Address::Treasury, 1, Address::Treasury, 300, 10);
    assert_eq!(
        chain.tx_ops(&own, true).unwrap(),
        vec![WriteOp::Put(
            account_key(&Address::Treasury),
            encode_account(&Account { balance: TOTAL_SUPPLY - 10, nonce: 1 })
        )]
    );
}

#[test]
fn signature_error() {
    let mut chain = new_chain();
    let alice = Wallet::new(b"alice".to_vec()).with_nonce(1);
    add_block(&mut chain, vec![from_treasury(1, alice.get_address(), 1000)]);
    let good = alice.create_transaction(person(2), 300, 10);
    let forged = Transaction { fee: 0, ..good };
    assert_eq!(chain.apply_tx(&forged), Err(BlockchainError::SignatureError));
    let unsigned = Transaction { sig: Signature::Unsigned, ..good };
    assert_eq!(chain.apply_tx(&unsigned), Err(BlockchainError::SignatureError));
    assert_eq!(chain.get_account(alice.get_address()).unwrap().balance, 1000);
    assert_eq!(chain.apply_tx(&good), Ok(()));
}

#[test]
fn balance_insufficient() {
    let mut chain = new_chain();
    add_block(&mut chain, vec![from_treasury(1, person(1), 100)]);
    assert_eq!(chain.tx_ops(&plain(person(1), 1, person(2), 91, 10), true), Err(BlockchainError::BalanceInsufficient));
    assert_eq!(chain.tx_ops(&plain(person(1), 1, person(1), 91, 10), true), Err(BlockchainError::BalanceInsufficient));
    assert_eq!(chain.tx_ops(&plain(person(1), 1, person(2), u64::MAX, 1), true), Err(BlockchainError::BalanceInsufficient));
    assert_eq!(chain.tx_ops(&plain(person(3), 1, person(2), 0, 1), true), Err(BlockchainError::BalanceInsufficient));
    assert!(chain.tx_ops(&plain(person(1), 1, person(2), 90, 10), true).is_ok());
    assert!(chain.tx_ops(&plain(person(3), 1, person(2), 0, 0), true).is_ok());
    let too_much = plain(Address::Treasury, 2, person(1), TOTAL_SUPPLY, 0);
    assert_eq!(chain.apply_tx(&too_much), Err(BlockchainError::BalanceInsufficient));
}

#[test]
fn invalid_transaction_nonce() {
    let mut chain = new_chain();
    add_block(&mut chain, vec![from_treasury(1, person(1), 100)]);
    for nonce in [0, 1, 3, u32::MAX] {
        assert_eq!(
            chain.apply_tx(&from_treasury(nonce, person(1), 1)),
            Err(BlockchainError::InvalidTransactionNonce)
        );
    }
    assert_eq!(chain.apply_tx(&from_treasury(2, person(1), 1)), Ok(()));
    // a nonce that cannot go up any more
    let stuck = Account { balance: 10, nonce: u32::MAX };
    chain
        .database
        .update(&vec![WriteOp::Put(account_key(&person(4)), encode_account(&stuck))])
        .unwrap();
    assert_eq!(
        chain.tx_ops(&plain(person(4), 0, person(1), 1, 0), true),
        Err(BlockchainError::InvalidTransactionNonce)
    );
}

#[test]
fn transaction_not_supported() {
    let mut chain = new_chain();
    let tx = Transaction {
        src: Address::Treasury,
        nonce: 1,
        data: TransactionData::RegisterValidator { vrf_stuff: 1, amount: 1 },
        fee: 0,
        sig: Signature::Unsigned,
    };
    assert_eq!(chain.apply_tx(&tx), Err(BlockchainError::TransactionNotSupported));
    let tx = Transaction {
        data: TransactionData::Update {
            contract_id: [0u8; 32],
            circuit_index: 0,
            next_state: [0u8; 32],
            proof: [0u8; 32],
        },
        ..tx
    };
    assert_eq!(chain.apply_tx(&tx), Err(BlockchainError::TransactionNotSupported));
    assert_eq!(chain.get_account(Address::Treasury).unwrap().nonce, 0);
    assert_eq!(chain.draft_block(&vec![tx], &Wallet::new(vec![])).unwrap().body, vec![]);
}

#[test]
fn credit_that_would_overflow_is_an_inconsistency() {
    let mut chain = new_chain();
    let rich = Account { balance: u64::MAX - 5, nonce: 0 };
    chain
        .database
        .update(&vec![WriteOp::Put(account_key(&person(1)), encode_account(&rich))])
        .unwrap();
    assert_eq!(chain.apply_tx(&from_treasury(1, person(1), 6)), Err(BlockchainError::Inconsistency));
    assert_eq!(chain.apply_tx(&from_treasury(1, person(1), 5)), Ok(()));
    assert_eq!(chain.get_account(person(1)).unwrap().balance, u64::MAX);
}

#[test]
fn header_errors() {
    let mut chain = new_chain();
    add_block(&mut chain, vec![]);
    let good = draft(&chain, vec![from_treasury(1, person(1), 5)]);

    let mut wrong_number = good.clone();
    wrong_number.header.number = 3;
    let wrong_number = mine(&chain, wrong_number);
    assert_eq!(chain.apply_block(&wrong_number, false), Err(BlockchainError::InvalidBlockNumber));

    let mut wrong_parent = good.clone();
    wrong_parent.header.parent_hash[0] ^= 1;
    let wrong_parent = mine(&chain, wrong_parent);
    assert_eq!(chain.apply_block(&wrong_parent, false), Err(BlockchainError::InvalidParentHash));

    let mut wrong_root = good.clone();
    wrong_root.header.block_root[31] ^= 1;
    let wrong_root = mine(&chain, wrong_root);
    assert_eq!(chain.apply_block(&wrong_root, false), Err(BlockchainError::InvalidMerkleRoot));

    let mut other_body = good.clone();
    other_body.body = vec![from_treasury(1, person(1), 6)];
    let other_body = mine(&chain, other_body);
    assert_eq!(chain.apply_block(&other_body, false), Err(BlockchainError::InvalidMerkleRoot));

    let unmined = unmine(&chain, good.clone());
    assert_eq!(chain.apply_block(&unmined, false), Err(BlockchainError::DifficultyTargetUnmet));
    // the target is looked at first
    let mut both = unmine(&chain, wrong_number.clone());
    both.header.parent_hash[0] ^= 1;
    let both = unmine(&chain, both);
    assert_eq!(chain.apply_block(&both, false), Err(BlockchainError::DifficultyTargetUnmet));
    // a draft is not held to the target
    assert_eq!(chain.fork_on_ram().apply_block(&unmined, true), Ok(()));
    assert_eq!(chain.fork_on_ram().apply_block(&wrong_number, true), Err(BlockchainError::InvalidBlockNumber));

    assert_eq!(chain.get_height(), Ok(2));
    assert_eq!(chain.apply_block(&good, false), Ok(()));
    assert_eq!(chain.get_height(), Ok(3));
}

#[test]
fn target_zero_is_unmet() {
    let chain = new_chain();
    let mut block = chain.draft_block(&vec![], &Wallet::new(vec![])).unwrap();
    block.header.proof_of_work.target = 0;
    assert_eq!(chain.fork_on_ram().apply_block(&block, false), Err(BlockchainError::DifficultyTargetUnmet));
    assert_eq!(chain.will_extend(1, &vec![block.header]), Err(BlockchainError::DifficultyTargetUnmet));
    block.header.proof_of_work.target = u32::MAX;
    assert_eq!(chain.fork_on_ram().apply_block(&block, false), Ok(()));
}

#[test]
fn draft_inherits_target_and_links() {
    let mut chain = new_chain();
    let first = add_block(&mut chain, vec![]);
    let block = chain.draft_block(&vec![from_treasury(1, person(1), 5)], &Wallet::new(vec![])).unwrap();
    assert_eq!(block.header.number, 2);
    assert_eq!(block.header.parent_hash, first.header.hash());
    assert_eq!(block.header.block_root, block.merkle_tree().root());
    assert_eq!(block.header.proof_of_work.target, GENESIS_TARGET);
    assert_eq!(block.header.proof_of_work.timestamp, 0);
    assert_eq!(block.header.proof_of_work.nonce, 0);
    assert_eq!(chain.next_difficulty(), Ok(GENESIS_TARGET));
    assert_eq!(chain.get_height(), Ok(2));
}

#[test]
fn select_sorts_by_nonce_and_drops_what_does_not_apply() {
    let mut chain = new_chain();
    add_block(&mut chain, vec![from_treasury(1, person(1), 100)]);
    let t2 = from_treasury(2, person(2), 1);
    let t3 = from_treasury(3, person(2), 2);
    let t3b = from_treasury(3, person(3), 3);
    let t5 = from_treasury(5, person(2), 4);
    let first = send(1, 1, person(2), 50, 1);
    let second = send(1, 2, person(2), 50, 0);
    let pool = vec![t5, t3, second, t3b, t2, first];
    let sorted = Chain::sort_by_nonce(&pool);
    assert_eq!(sorted, vec![first, second, t2, t3, t3b, t5]);
    let picked = chain.select_transactions(&pool).unwrap();
    // second cannot be paid after first; the second transaction with nonce 3 and the one with 5 do not follow
    assert_eq!(picked, vec![first, t2, t3]);
    assert_eq!(chain.select_transactions(&vec![]).unwrap(), vec![]);
    assert_eq!(chain.get_account(person(1)).unwrap().balance, 100);
    let block = chain.draft_block(&pool, &Wallet::new(vec![])).unwrap();
    assert_eq!(block.body, picked);
}

#[test]
fn sort_is_stable() {
    let a = from_treasury(1, person(1), 1);
    let b = from_treasury(1, person(2), 2);
    let c = from_treasury(0, person(3), 3);
    let d = from_treasury(1, person(4), 4);
    assert_eq!(Chain::sort_by_nonce(&vec![a, b, c, d]), vec![c, a, b, d]);
    assert_eq!(Chain::sort_by_nonce(&vec![d, b, a]), vec![d, b, a]);
    assert_eq!(Chain::sort_by_nonce(&vec![]), vec![]);
}

#[test]
fn blocks_and_headers_are_clipped_to_the_chain() {
    let mut chain = new_chain();
    let b1 = add_block(&mut chain, vec![]);
    let b2 = add_block(&mut chain, vec![from_treasury(1, person(1), 1)]);
    let b3 = add_block(&mut chain, vec![]);
    let g = get_genesis_block();
    assert_eq!(chain.get_blocks(0, None).unwrap(), vec![g.clone(), b1.clone(), b2.clone(), b3.clone()]);
    assert_eq!(chain.get_blocks(1, Some(3)).unwrap(), vec![b1.clone(), b2.clone()]);
    assert_eq!(chain.get_blocks(2, Some(100)).unwrap(), vec![b2.clone(), b3.clone()]);
    assert_eq!(chain.get_blocks(3, Some(3)).unwrap(), vec![]);
    assert_eq!(chain.get_blocks(3, Some(2)).unwrap(), vec![]);
    assert_eq!(chain.get_blocks(4, None).unwrap(), vec![]);
    assert_eq!(chain.get_blocks(u64::MAX, None).unwrap(), vec![]);
    assert_eq!(chain.get_headers(1, Some(3)).unwrap(), vec![b1.header, b2.header]);
    assert_eq!(chain.get_headers(0, Some(0)).unwrap(), Vec::<Header>::new());
    assert_eq!(chain.get_block(3).unwrap(), b3);
    assert_eq!(chain.get_block(4), Err(BlockchainError::BlockNotFound));
}

#[test]
fn extend_from_genesis_and_from_the_future() {
    let mut chain = new_chain();
    add_block(&mut chain, vec![]);
    let next = draft(&chain, vec![]);
    assert_eq!(chain.extend(0, &vec![next.clone()]), Err(BlockchainError::ExtendFromGenesis));
    assert_eq!(chain.extend(3, &vec![next.clone()]), Err(BlockchainError::ExtendFromFuture));
    assert_eq!(chain.will_extend(0, &vec![next.header]), Err(BlockchainError::ExtendFromGenesis));
    assert_eq!(chain.will_extend(3, &vec![next.header]), Err(BlockchainError::ExtendFromFuture));
    assert_eq!(chain.get_height(), Ok(2));
    assert_eq!(chain.will_extend(2, &vec![next.header]), Ok(true));
    assert_eq!(chain.extend(2, &vec![next]), Ok(()));
    assert_eq!(chain.get_height(), Ok(3));
}

#[test]
fn will_extend_checks_the_headers() {
    let mut chain = new_chain();
    add_block(&mut chain, vec![]);
    let a = draft(&chain, vec![]);
    let mut fork = chain.fork_on_ram();
    fork.apply_block(&a, false).unwrap();
    let mut b = fork.draft_block(&vec![], &Wallet::new(vec![])).unwrap();
    let key = base_key();
    while !b.header.meets_target(&key) {
        b.header.proof_of_work.nonce += 1;
    }
    assert_eq!(chain.will_extend(2, &vec![a.header, b.header]), Ok(true));
    assert_eq!(chain.will_extend(2, &vec![b.header]), Err(BlockchainError::InvalidBlockNumber));
    assert_eq!(chain.will_extend(2, &vec![a.header, a.header]), Err(BlockchainError::InvalidBlockNumber));
    let mut c = b.header;
    c.parent_hash[3] ^= 1;
    while !c.meets_target(&key) {
        c.proof_of_work.nonce += 1;
    }
    assert_eq!(chain.will_extend(2, &vec![a.header, c]), Err(BlockchainError::InvalidParentHash));
    let mut d = a.header;
    while d.meets_target(&key) {
        d.proof_of_work.nonce += 1;
    }
    assert_eq!(chain.will_extend(2, &vec![d]), Err(BlockchainError::DifficultyTargetUnmet));
    // nothing new brings no more power
    assert_eq!(chain.will_extend(2, &vec![]), Ok(false));
    assert_eq!(chain.will_extend(1, &vec![]), Ok(false));
}

#[test]
fn will_extend_says_what_extend_does() {
    let mut local = new_chain();
    add_block(&mut local, vec![from_treasury(1, person(1), 1)]);
    add_block(&mut local, vec![from_treasury(2, person(1), 1)]);
    let power = local.get_power().unwrap();

    let mut peer = new_chain();
    let mut blocks = Vec::new();
    for n in 0..4 {
        blocks.push(add_block(&mut peer, vec![from_treasury(n + 1, person(2), 1)]));
        let headers: Vec<Header> = blocks.iter().map(|b| b.header).collect();
        let answer = local.will_extend(1, &headers).unwrap();
        let mut trial = KvStoreChain::new(RamKvStore::new()).unwrap();
        for b in local.get_blocks(1, None).unwrap() {
            trial.apply_block(&b, false).unwrap();
        }
        trial.extend(1, &blocks).unwrap();
        assert_eq!(trial.get_power().unwrap(), peer.get_power().unwrap());
        assert_eq!(answer, trial.get_power().unwrap() > power);
    }
    // extending by nothing from below the tip lowers the power
    assert_eq!(local.will_extend(2, &vec![]), Ok(false));
    local.extend(2, &vec![]).unwrap();
    assert_eq!(local.get_height(), Ok(2));
    assert!(local.get_power().unwrap() < power);
}

#[test]
fn extend_that_fails_leaves_no_trace() {
    let mut chain = new_chain();
    add_block(&mut chain, vec![from_treasury(1, person(1), 10)]);
    add_block(&mut chain, vec![from_treasury(2, person(1), 10)]);
    let people = [Address::Treasury, person(1), person(2)];
    let keys = chain_keys(5, &people);
    let before = snapshot(&chain, &keys);

    let mut peer = new_chain();
    let x = add_block(&mut peer, vec![from_treasury(1, person(2), 10)]);
    let y = add_block(&mut peer, vec![]);
    let mut bad = draft(&peer, vec![]);
    bad.body = vec![from_treasury(9, person(2), 1)];
    bad.header.block_root = bad.merkle_tree().root();
    let bad = mine(&peer, bad);
    assert_eq!(
        chain.extend(1, &vec![x.clone(), y.clone(), bad.clone()]),
        Err(BlockchainError::InvalidTransactionNonce)
    );
    assert_eq!(snapshot(&chain, &keys), before);
    // the headers alone look fine
    assert_eq!(chain.will_extend(1, &vec![x.header, y.header, bad.header]), Ok(true));
    assert_eq!(chain.extend(1, &vec![y.clone()]), Err(BlockchainError::InvalidBlockNumber));
    assert_eq!(chain.extend(2, &vec![y.clone()]), Err(BlockchainError::InvalidParentHash));
    assert_eq!(chain.extend(2, &vec![x.clone()]), Err(BlockchainError::InvalidBlockNumber));
    assert_eq!(snapshot(&chain, &keys), before);
    assert_eq!(chain.extend(1, &vec![x, y]), Ok(()));
    assert_ne!(snapshot(&chain, &keys), before);
}

#[test]
fn rollbacks_give_each_earlier_state_back() {
    let mut chain = new_chain();
    let people = [Address::Treasury, person(1), person(2), person(3)];
    let keys = chain_keys(6, &people);
    let mut states = vec![snapshot(&chain, &keys)];
    add_block(&mut chain, vec![from_treasury(1, person(1), 1000)]);
    states.push(snapshot(&chain, &keys));
    add_block(&mut chain, vec![send(1, 1, person(2), 300, 10), from_treasury(2, person(3), 5)]);
    states.push(snapshot(&chain, &keys));
    add_block(&mut chain, vec![]);
    states.push(snapshot(&chain, &keys));
    add_block(&mut chain, vec![send(2, 1, person(2), 100, 5), send(1, 2, person(3), 1, 1)]);
    states.push(snapshot(&chain, &keys));
    assert_eq!(chain.get_height(), Ok(5));
    for h in (1..=5usize).rev() {
        assert_eq!(snapshot(&chain, &keys), states[h - 1]);
        assert_eq!(chain.rollback_block(), Ok(()));
        assert_eq!(chain.get_height(), Ok(h as u64 - 1));
    }
    assert!(snapshot(&chain, &keys).iter().all(|v| v.is_none()));
}

#[test]
fn money_is_conserved_but_for_fees() {
    let mut chain = new_chain();
    let people = [Address::Treasury, person(1), person(2), person(3)];
    assert_eq!(total(&chain, &people), TOTAL_SUPPLY as u128);
    add_block(&mut chain, vec![from_treasury(1, person(1), 1000), from_treasury(2, person(2), 500)]);
    assert_eq!(total(&chain, &people), TOTAL_SUPPLY as u128);
    add_block(&mut chain, vec![send(1, 1, person(3), 300, 0), send(2, 1, person(2), 7, 0)]);
    assert_eq!(total(&chain, &people), TOTAL_SUPPLY as u128);
    add_block(&mut chain, vec![send(1, 2, person(3), 300, 10), send(3, 1, person(3), 7, 5)]);
    assert_eq!(total(&chain, &people), TOTAL_SUPPLY as u128 - 15);
    chain.rollback_block().unwrap();
    assert_eq!(total(&chain, &people), TOTAL_SUPPLY as u128);
}

#[test]
fn nonces_count_the_debits() {
    let mut chain = new_chain();
    let people = [Address::Treasury, person(1), person(2)];
    let mut last: Vec<u32> = people.iter().map(|p| chain.get_account(*p).unwrap().nonce).collect();
    assert_eq!(last, vec![0, 0, 0]);
    let bodies = vec![
        vec![from_treasury(1, person(1), 1000), from_treasury(2, person(2), 500)],
        vec![send(1, 1, person(2), 1, 1)],
        vec![],
        vec![send(1, 2, person(1), 1, 1), send(2, 1, person(1), 1, 1), from_treasury(3, person(1), 1)],
    ];
    let expected = vec![vec![2, 0, 0], vec![2, 1, 0], vec![2, 1, 0], vec![3, 2, 1]];
    for (body, want) in bodies.into_iter().zip(expected) {
        add_block(&mut chain, body);
        let now: Vec<u32> = people.iter().map(|p| chain.get_account(*p).unwrap().nonce).collect();
        assert!(now.iter().zip(&last).all(|(a, b)| a >= b));
        assert_eq!(now, want);
        last = now;
    }
}

#[test]
fn chain_is_linked() {
    let mut chain = new_chain();
    add_block(&mut chain, vec![from_treasury(1, person(1), 1000)]);
    add_block(&mut chain, vec![]);
    add_block(&mut chain, vec![send(1, 1, person(2), 1, 1)]);
    let blocks = chain.get_blocks(0, None).unwrap();
    assert_eq!(blocks.len(), 4);
    for (i, b) in blocks.iter().enumerate() {
        assert_eq!(b.header.number, i as u64);
        assert_eq!(b.header.block_root, b.merkle_tree().root());
        if i > 0 {
            assert_eq!(b.header.parent_hash, blocks[i - 1].header.hash());
        }
        let stored = chain.database.get(&merkle_key(i as u64)).unwrap().unwrap();
        assert_eq!(MerkleTree::decode(&stored).unwrap().root(), b.header.block_root);
    }
    let mut power = 0;
    for (i, b) in blocks.iter().enumerate() {
        power += b.header.power(&base_key());
        assert_eq!(decode_u64(&chain.database.get(&power_key(i as u64)).unwrap().unwrap()), Some(power));
    }
}

#[test]
fn stored_values_read_back_to_the_same_bytes() {
    let mut chain = new_chain();
    add_block(&mut chain, vec![from_treasury(1, person(1), 1000)]);
    add_block(&mut chain, vec![send(1, 1, person(2), 300, 10)]);
    for i in 0..3 {
        let bytes = chain.database.get(&block_key(i)).unwrap().unwrap();
        assert_eq!(encode_block(&decode_block(&bytes).unwrap()), bytes);
        let bytes = chain.database.get(&rollback_key(i)).unwrap().unwrap();
        assert_eq!(encode_ops(&decode_ops(&bytes).unwrap()), bytes);
        let bytes = chain.database.get(&merkle_key(i)).unwrap().unwrap();
        assert_eq!(MerkleTree::decode(&bytes).unwrap().encode(), bytes);
        let bytes = chain.database.get(&power_key(i)).unwrap().unwrap();
        assert_eq!(encode_u64(decode_u64(&bytes).unwrap()), bytes);
    }
    let bytes = chain.database.get(&height_key()).unwrap().unwrap();
    assert_eq!(encode_u64(decode_u64(&bytes).unwrap()), bytes);
    for p in [Address::Treasury, person(1), person(2)] {
        let bytes = chain.database.get(&account_key(&p)).unwrap().unwrap();
        assert_eq!(encode_account(&decode_account(&bytes).unwrap()), bytes);
    }
}

#[test]
fn corrupted_and_missing_entries() {
    let mut chain = new_chain();
    add_block(&mut chain, vec![from_treasury(1, person(1), 1000)]);
    let corrupted = BlockchainError::KvStoreError(KvStoreError::Corrupted);

    let mut broken = chain.fork_on_ram();
    broken.database.update(&vec![WriteOp::Put(height_key(), vec![1, 2, 3])]).unwrap();
    assert_eq!(broken.get_height(), Err(corrupted));
    assert_eq!(broken.get_power(), Err(corrupted));
    assert_eq!(broken.get_block(0), Err(corrupted));
    assert_eq!(broken.get_blocks(0, None), Err(corrupted));
    assert_eq!(broken.extend(1, &vec![]), Err(corrupted));

    let mut broken = chain.fork_on_ram();
    broken.database.update(&vec![WriteOp::Put(account_key(&person(1)), vec![0; 11])]).unwrap();
    assert_eq!(broken.get_account(person(1)), Err(corrupted));
    assert_eq!(broken.apply_tx(&from_treasury(2, person(1), 1)), Err(corrupted));

    let mut broken = chain.fork_on_ram();
    broken.database.update(&vec![WriteOp::Remove(block_key(1))]).unwrap();
    assert_eq!(broken.get_block(1), Err(BlockchainError::Inconsistency));
    assert_eq!(broken.get_blocks(0, None), Err(BlockchainError::Inconsistency));
    assert_eq!(broken.get_blocks(0, Some(1)).unwrap().len(), 1);
    assert_eq!(broken.draft_block(&vec![], &Wallet::new(vec![])), Err(BlockchainError::Inconsistency));

    let mut broken = chain.fork_on_ram();
    broken.database.update(&vec![WriteOp::Put(block_key(1), vec![0; 5])]).unwrap();
    assert_eq!(broken.get_block(1), Err(corrupted));

    let mut broken = chain.fork_on_ram();
    broken.database.update(&vec![WriteOp::Remove(power_key(1))]).unwrap();
    assert_eq!(broken.get_power(), Err(BlockchainError::Inconsistency));
    assert_eq!(broken.will_extend(2, &vec![]), Err(BlockchainError::Inconsistency));

    let mut broken = chain.fork_on_ram();
    broken.database.update(&vec![WriteOp::Remove(rollback_key(1))]).unwrap();
    assert_eq!(broken.rollback_block(), Err(BlockchainError::Inconsistency));
    assert_eq!(broken.extend(1, &vec![]), Err(BlockchainError::Inconsistency));

    let mut broken = chain.fork_on_ram();
    broken.database.update(&vec![WriteOp::Put(rollback_key(1), vec![9])]).unwrap();
    assert_eq!(broken.rollback_block(), Err(corrupted));

    // a journal that does not lower the height
    let mut broken = chain.fork_on_ram();
    broken.database.update(&vec![WriteOp::Put(rollback_key(1), encode_ops(&vec![]))]).unwrap();
    assert_eq!(broken.rollback_block(), Ok(()));
    let mut broken = chain.fork_on_ram();
    broken.database.update(&vec![WriteOp::Put(rollback_key(1), encode_ops(&vec![]))]).unwrap();
    assert_eq!(broken.extend(1, &vec![]), Err(BlockchainError::Inconsistency));

    // a height that cannot go up, a power that cannot be counted
    let mut broken = chain.fork_on_ram();
    let next = draft(&chain, vec![]);
    broken.database.update(&vec![WriteOp::Put(power_key(1), encode_u64(u64::MAX))]).unwrap();
    assert_eq!(broken.apply_block(&next, false), Err(BlockchainError::Inconsistency));
    assert_eq!(broken.will_extend(2, &vec![next.header]), Err(BlockchainError::Inconsistency));

    assert_eq!(chain.get_height(), Ok(2));
}

#[test]
fn pow_key_rotates_with_the_chain() {
    let mut chain = new_chain();
    assert_eq!(chain.pow_key(0), Ok(base_key()));
    assert_eq!(chain.pow_key(63), Ok(base_key()));
    assert_eq!(chain.pow_key(64), Ok(get_genesis_block().header.hash()));
    assert_eq!(chain.pow_key(191), Ok(get_genesis_block().header.hash()));
    assert_eq!(chain.pow_key(192), Err(BlockchainError::BlockNotFound));
    assert_eq!(chain.pow_key(u64::MAX), Err(BlockchainError::BlockNotFound));
    for _ in 0..64 {
        add_block(&mut chain, vec![]);
    }
    assert_eq!(chain.get_height(), Ok(65));
    // block 64 was mined under the hash of the first block
    let block = chain.get_block(64).unwrap();
    assert!(block.header.meets_target(&get_genesis_block().header.hash()));
    assert_eq!(
        chain.get_power().unwrap() - decode_u64(&chain.database.get(&power_key(63)).unwrap().unwrap()).unwrap(),
        block.header.power(&get_genesis_block().header.hash())
    );
}

#[test]
fn errors_say_what_happened() {
    let all = [
        (BlockchainError::KvStoreError(KvStoreError::Failure), "kvstore error happened"),
        (BlockchainError::KvStoreError(KvStoreError::Corrupted), "kvstore error happened"),
        (BlockchainError::SignatureError, "transaction signature is invalid"),
        (BlockchainError::BalanceInsufficient, "balance insufficient"),
        (BlockchainError::Inconsistency, "inconsistency error"),
        (BlockchainError::BlockNotFound, "block not found"),
        (BlockchainError::ExtendFromGenesis, "cannot extend from the genesis block"),
        (BlockchainError::ExtendFromFuture, "cannot extend from very future blocks"),
        (BlockchainError::InvalidBlockNumber, "block number invalid"),
        (BlockchainError::InvalidParentHash, "parent hash invalid"),
        (BlockchainError::InvalidMerkleRoot, "merkle root invalid"),
        (BlockchainError::InvalidTransactionNonce, "transaction nonce invalid"),
        (BlockchainError::DifficultyTargetUnmet, "unmet difficulty target"),
        (BlockchainError::TransactionNotSupported, "transaction not supported"),
    ];
    for (e, text) in all {
        assert_eq!(e.message(), text);
    }
    assert_eq!(KvStoreError::Failure.message(), "kvstore failure");
    assert_eq!(KvStoreError::Corrupted.message(), "kvstore data corrupted");
    assert_eq!(ledger_core::types::ParseAddressError::Invalid.message(), "address invalid");
}

#[test]
fn addresses_are_ordered_as_their_encodings() {
    let mut addresses = vec![
        Address::PublicKey([2u8; 32]),
        Address::Treasury,
        Address::PublicKey([1u8; 32]),
        Address::PublicKey([0u8; 32]),
        Address::PublicKey([0xffu8; 32]),
    ];
    let mut low = [1u8; 32];
    low[31] = 0;
    addresses.push(Address::PublicKey(low));
    let encoding = |a: &Address| {
        let mut out = Vec::new();
        ledger_core::codec::write_address(&mut out, a);
        out
    };
    for a in &addresses {
        for b in &addresses {
            assert_eq!(a.cmp(b), encoding(a).cmp(&encoding(b)));
        }
    }
    addresses.sort();
    assert_eq!(addresses[0], Address::Treasury);
    assert_eq!(addresses[5], Address::PublicKey([0xffu8; 32]));
}

#[test]
fn a_draft_with_a_wrong_number_is_refused_for_its_number() {
    let mut chain = new_chain();
    add_block(&mut chain, vec![]);
    let keys = chain_keys(3, &[Address::Treasury]);
    let before = snapshot(&chain, &keys);
    let good = chain.draft_block(&vec![], &Wallet::new(vec![])).unwrap();
    // the key of block 200 would come from block 128, which is not there
    assert_eq!(chain.pow_key(200), Err(BlockchainError::BlockNotFound));
    for number in [0, 1, 3, 64, 200, u64::MAX] {
        let mut block = good.clone();
        block.header.number = number;
        block.header.parent_hash = [9u8; 32];
        block.header.block_root = [9u8; 32];
        assert_eq!(chain.apply_block(&block, true), Err(BlockchainError::InvalidBlockNumber));
        assert_eq!(chain.fork_on_ram().apply_block(&block, true), Err(BlockchainError::InvalidBlockNumber));
    }
    // in full the key is asked for first
    let mut far = good.clone();
    far.header.number = 200;
    assert_eq!(chain.apply_block(&far, false), Err(BlockchainError::BlockNotFound));
    let mut near = good.clone();
    near.header.number = 64;
    let near = mine(&chain, near);
    assert_eq!(chain.apply_block(&near, false), Err(BlockchainError::InvalidBlockNumber));
    assert_eq!(snapshot(&chain, &keys), before);
    assert_eq!(chain.apply_block(&good, true), Ok(()));
    assert_eq!(chain.get_height(), Ok(3));
}

#[test]
fn from_is_tested_before_anything_is_read() {
    let mut chain = new_chain();
    chain.database.update(&vec![WriteOp::Remove(power_key(0))]).unwrap();
    assert_eq!(chain.get_power(), Err(BlockchainError::Inconsistency));
    assert_eq!(chain.will_extend(0, &vec![]), Err(BlockchainError::ExtendFromGenesis));
    assert_eq!(chain.will_extend(2, &vec![]), Err(BlockchainError::ExtendFromFuture));
    assert_eq!(chain.will_extend(1, &vec![]), Err(BlockchainError::Inconsistency));
    assert_eq!(chain.extend(0, &vec![]), Err(BlockchainError::ExtendFromGenesis));
    assert_eq!(chain.extend(2, &vec![]), Err(BlockchainError::ExtendFromFuture));
    chain.database.update(&vec![WriteOp::Put(height_key(), vec![1])]).unwrap();
    let corrupted = BlockchainError::KvStoreError(KvStoreError::Corrupted);
    assert_eq!(chain.will_extend(0, &vec![]), Err(BlockchainError::ExtendFromGenesis));
    assert_eq!(chain.extend(0, &vec![]), Err(BlockchainError::ExtendFromGenesis));
    assert_eq!(chain.will_extend(1, &vec![]), Err(corrupted));
    assert_eq!(chain.extend(1, &vec![]), Err(corrupted));
}
