use ledger_core::blockchain::{Blockchain, BlockchainError, KvStoreChain};
use ledger_core::db::{KvStore, KvStoreError, Op, RamKvStore, WriteOp};
use ledger_core::types::{Address, Signature, Transaction, TransactionData};
use ledger_core::wallet::Wallet;
use std::cell::Cell;

/// A store that serves a number of requests and fails from then on.
struct Flaky {
    inner: RamKvStore,
    left: Cell<u32>,
}

impl Flaky {
    fn tick(&self) -> Result<(), KvStoreError> {
        if self.left.get() == 0 {
            Err(KvStoreError::Failure)
        } else {
            self.left.set(self.left.get() - 1);
            Ok(())
        }
    }
}

impl KvStore for Flaky {
    // what the contracts speak of; nothing that runs calls these
    fn view(&self) -> vstd::map::Map<vstd::seq::Seq<u8>, vstd::seq::Seq<u8>> {
        unreachable!()
    }

    fn reliable(&self) -> bool {
        unreachable!()
    }

    fn steps_to(&self, _: vstd::seq::Seq<Op>, _: &Self) -> bool {
        unreachable!()
    }

    fn lemma_steps_to(&self, _: vstd::seq::Seq<Op>, _: &Self) {
        unreachable!()
    }

    fn get(&self, k: &[u8]) -> Result<Option<Vec<u8>>, KvStoreError> {
        self.tick()?;
        self.inner.get(k)
    }

    fn update(&mut self, ops: &Vec<WriteOp>) -> Result<(), KvStoreError> {
        self.tick()?;
        self.inner.update(ops)
    }
}

fn send(nonce: u32, amount: u64) -> Transaction {
    Transaction {
        src: Address::Treasury,
        nonce,
        data: TransactionData::RegularSend { dst: Address::PublicKey([1u8; 32]), amount },
        fee: 0,
        sig: Signature::Unsigned,
    }
}

#[test]
fn store_failures_are_handed_on_and_change_nothing() {
    let failure = BlockchainError::KvStoreError(KvStoreError::Failure);
    let base = KvStoreChain::new(RamKvStore::new()).unwrap();
    let draft = base.draft_block(&vec![send(1, 5)], &Wallet::new(vec![])).unwrap();
    let mut block = draft.clone();
    let key = base.pow_key(1).unwrap();
    while !block.header.meets_target(&key) {
        block.header.proof_of_work.nonce += 1;
    }
    let mut served = 0;
    loop {
        let inner = KvStoreChain::new(RamKvStore::new()).unwrap().database;
        let mut chain = KvStoreChain { database: Flaky { inner, left: Cell::new(served) } };
        let r = chain.apply_block(&block, false);
        chain.database.left.set(u32::MAX);
        if r.is_ok() {
            assert_eq!(chain.get_height(), Ok(2));
            assert_eq!(chain.get_account(Address::PublicKey([1u8; 32])).unwrap().balance, 5);
            break;
        }
        assert_eq!(r, Err(failure));
        assert_eq!(chain.get_height(), Ok(1));
        assert_eq!(chain.get_account(Address::PublicKey([1u8; 32])).unwrap().balance, 0);
        assert_eq!(chain.get_blocks(0, None).unwrap().len(), 1);
        served += 1;
        assert!(served < 100);
    }
    assert!(served > 5);
}

#[test]
fn readings_fail_with_the_store() {
    let failure = BlockchainError::KvStoreError(KvStoreError::Failure);
    let inner = KvStoreChain::new(RamKvStore::new()).unwrap().database;
    let chain = KvStoreChain { database: Flaky { inner, left: Cell::new(0) } };
    assert_eq!(chain.get_height(), Err(failure));
    assert_eq!(chain.get_power(), Err(failure));
    assert_eq!(chain.get_account(Address::Treasury), Err(failure));
    assert_eq!(chain.get_block(0), Err(failure));
    assert_eq!(chain.get_blocks(0, None), Err(failure));
    assert_eq!(chain.get_headers(0, None), Err(failure));
    assert_eq!(chain.pow_key(64), Err(failure));
    assert_eq!(chain.will_extend(1, &vec![]), Err(failure));
    // what is decided before the store is asked
    assert_eq!(chain.will_extend(0, &vec![]), Err(BlockchainError::ExtendFromGenesis));
    assert_eq!(chain.tx_ops(&send(1, 5), false), Err(BlockchainError::SignatureError));
    assert_eq!(chain.tx_ops(&send(1, 5), true), Err(failure));
    let forged = Transaction { src: Address::PublicKey([1u8; 32]), ..send(1, 5) };
    assert_eq!(chain.fork_on_ram().apply_tx(&forged), Err(BlockchainError::SignatureError));
    assert_eq!(chain.fork_on_ram().extend(0, &vec![]), Err(BlockchainError::ExtendFromGenesis));
    assert_eq!(chain.database.rollback_of(&vec![]), Ok(vec![]));
    assert_eq!(chain.next_difficulty(), Err(failure));
    assert_eq!(chain.draft_block(&vec![], &Wallet::new(vec![])), Err(failure));
    assert_eq!(chain.database.rollback_of(&vec![WriteOp::Remove(vec![1])]), Err(KvStoreError::Failure));
    // the first keys need no store
    assert!(chain.pow_key(5).is_ok());
    assert_eq!(chain.select_transactions(&vec![send(1, 5)]), Err(failure));
    // nothing to try needs no store
    assert_eq!(chain.select_transactions(&vec![]), Ok(vec![]));
}

#[test]
fn new_fails_with_the_store() {
    let failure = BlockchainError::KvStoreError(KvStoreError::Failure);
    let flaky = Flaky { inner: RamKvStore::new(), left: Cell::new(0) };
    assert_eq!(KvStoreChain::new(flaky).err(), Some(failure));
    let flaky = Flaky { inner: RamKvStore::new(), left: Cell::new(3) };
    assert_eq!(KvStoreChain::new(flaky).err(), Some(failure));
    let flaky = Flaky { inner: RamKvStore::new(), left: Cell::new(50) };
    assert_eq!(KvStoreChain::new(flaky).unwrap().get_height(), Ok(1));
}
