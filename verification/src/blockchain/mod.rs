//! The chain: blocks applied to and rolled back from a key/value store.

use vstd::prelude::*;
use crate::blockchain::keys::{
    account_key,
    block_key,
    height_key,
    merkle_key,
    power_key,
    rollback_key,
};
use crate::blockchain::model::{
    block_changes,
    block_entry,
    block_writes,
    journaled_writes,
    blocks_between,
    blocks_pending,
    blocks_view,
    body_pending,
    corrupted,
    extend_changes,
    failure,
    header_checks,
    headers_of,
    headers_power,
    lemma_blocks_pending_step,
    lemma_body_pending_step,
    lemma_headers_power_step,
    lemma_insert_at,
    lemma_select_step,
    lemma_tx_refusal,
    link_checks,
    next_target,
    draft_answer,
    select_from,
    selected,
    sorted_by_nonce,
    power_entry,
    range_end,
    rewind_pending,
    rollback_changes,
    start_changes,
    stored_account,
    stored_block,
    stored_blocks,
    stored_height,
    stored_pow_key,
    stored_power,
    tx_ops,
    tx_ops_given,
    will_extend_answer,
};
use crate::bytes::array_eq;
use crate::codec::{
    dec_u64,
    decode_account,
    decode_block,
    decode_ops,
    decode_u64,
    encode_account,
    encode_block,
    encode_ops,
    encode_u64,
};
use crate::config::genesis::get_genesis_block;
use crate::config::{
    base_key,
    DIFFICULTY_CALC_INTERVAL,
    POW_KEY_CHANGE_DELAY,
    POW_KEY_CHANGE_INTERVAL,
    TOTAL_SUPPLY,
};
use crate::db::{absorb_all, apply_ops, ops_view, KvStore, KvStoreError, Op, RamMirrorKvStore, WriteOp};
use crate::types::{
    Account,
    Address,
    Block,
    BlockView,
    Digest,
    Header,
    ProofOfWork,
    Transaction,
    TransactionData,
};
use crate::types::transaction::signature_valid;
use crate::wallet::Wallet;

pub mod accounts;
pub mod fork_choice;
pub mod journal;
pub mod keys;
pub mod model;
pub mod refusals;
pub mod soundness;

verus! {

#[derive(Clone, Copy, Debug, PartialEq, Eq)]
pub enum BlockchainError {
    /// The store failed, or holds what does not decode.
    KvStoreError(KvStoreError),
    /// A transaction is not signed by its sender.
    SignatureError,
    /// A sender cannot pay the amount and the fee.
    BalanceInsufficient,
    /// The store lacks what the chain must hold, or holds what cannot be.
    Inconsistency,
    /// There is no block at that height.
    BlockNotFound,
    /// The first block cannot be replaced.
    ExtendFromGenesis,
    /// The chain does not reach the height to extend from.
    ExtendFromFuture,
    /// A block does not carry the next height as its number.
    InvalidBlockNumber,
    /// A block does not name the hash of the header before it.
    InvalidParentHash,
    /// A block does not carry the Merkle root of its body.
    InvalidMerkleRoot,
    /// A transaction's nonce does not follow its sender's.
    InvalidTransactionNonce,
    /// A proof of work is not within its target.
    DifficultyTargetUnmet,
    /// A transaction is of a kind that this ledger does not carry out.
    TransactionNotSupported,
}

impl BlockchainError {
    /// What the error says.
    pub open spec fn text(self) -> Seq<char> {
        match self {
            BlockchainError::KvStoreError(_) => "kvstore error happened"@,
            BlockchainError::SignatureError => "transaction signature is invalid"@,
            BlockchainError::BalanceInsufficient => "balance insufficient"@,
            BlockchainError::Inconsistency => "inconsistency error"@,
            BlockchainError::BlockNotFound => "block not found"@,
            BlockchainError::ExtendFromGenesis => "cannot extend from the genesis block"@,
            BlockchainError::ExtendFromFuture => "cannot extend from very future blocks"@,
            BlockchainError::InvalidBlockNumber => "block number invalid"@,
            BlockchainError::InvalidParentHash => "parent hash invalid"@,
            BlockchainError::InvalidMerkleRoot => "merkle root invalid"@,
            BlockchainError::InvalidTransactionNonce => "transaction nonce invalid"@,
            BlockchainError::DifficultyTargetUnmet => "unmet difficulty target"@,
            BlockchainError::TransactionNotSupported => "transaction not supported"@,
        }
    }

    /// What the error says.
    pub fn message(&self) -> (text: &'static str)
        ensures
            text@ == self.text(),
    {
        match self {
            BlockchainError::KvStoreError(_) => "kvstore error happened",
            BlockchainError::SignatureError => "transaction signature is invalid",
            BlockchainError::BalanceInsufficient => "balance insufficient",
            BlockchainError::Inconsistency => "inconsistency error",
            BlockchainError::BlockNotFound => "block not found",
            BlockchainError::ExtendFromGenesis => "cannot extend from the genesis block",
            BlockchainError::ExtendFromFuture => "cannot extend from very future blocks",
            BlockchainError::InvalidBlockNumber => "block number invalid",
            BlockchainError::InvalidParentHash => "parent hash invalid",
            BlockchainError::InvalidMerkleRoot => "merkle root invalid",
            BlockchainError::InvalidTransactionNonce => "transaction nonce invalid",
            BlockchainError::DifficultyTargetUnmet => "unmet difficulty target",
            BlockchainError::TransactionNotSupported => "transaction not supported",
        }
    }
}

/// That a reading was served: it gave what the store's content calls for,
/// unless the store is not reliable and failed.
pub open spec fn served<T>(
    r: Result<T, BlockchainError>,
    expected: Result<T, BlockchainError>,
    reliable: bool,
) -> bool {
    r == expected || (!reliable && r == Err::<T, BlockchainError>(failure()))
}

/// That a change was made or refused as a whole: on success the store took
/// exactly the batch that the content called for; on an error it is as it
/// was, and the error is the one called for, unless the store is not
/// reliable and failed.
pub open spec fn changed<K: KvStore>(
    before: &K,
    after: &K,
    r: Result<(), BlockchainError>,
    changes: Result<Seq<Op>, BlockchainError>,
) -> bool {
    match r {
        Ok(_) => {
            &&& changes is Ok
            &&& before.steps_to(changes.unwrap(), after)
            &&& after@ == apply_ops(before@, changes.unwrap())
            &&& after.reliable() == before.reliable()
        },
        Err(e) => {
            &&& *after == *before
            &&& (changes == Err::<Seq<Op>, BlockchainError>(e) || (!before.reliable() && e
                == failure()))
        },
    }
}

pub trait Blockchain {
    fn get_account(&self, addr: Address) -> Result<Account, BlockchainError>;

    fn will_extend(&self, from: u64, headers: &Vec<Header>) -> Result<bool, BlockchainError>;

    fn extend(&mut self, from: u64, blocks: &Vec<Block>) -> Result<(), BlockchainError>;

    fn draft_block(&self, mempool: &Vec<Transaction>, wallet: &Wallet) -> Result<
        Block,
        BlockchainError,
    >;

    fn get_height(&self) -> Result<u64, BlockchainError>;

    fn get_headers(&self, since: u64, until: Option<u64>) -> Result<Vec<Header>, BlockchainError>;

    fn get_blocks(&self, since: u64, until: Option<u64>) -> Result<Vec<Block>, BlockchainError>;

    fn get_power(&self) -> Result<u64, BlockchainError>;

    fn pow_key(&self, index: u64) -> Result<Digest, BlockchainError>;
}

/// A chain kept in a key/value store.
pub struct KvStoreChain<K: KvStore> {
    pub database: K,
}

impl<K: KvStore> KvStoreChain<K> {
    /// A chain on a store. A store that holds no block yet gets the first
    /// block; any other is taken as it is.
    pub fn new(kv_store: K) -> (r: Result<KvStoreChain<K>, BlockchainError>)
        ensures
            match r {
                Ok(chain) => {
                    &&& start_changes(kv_store@) is Ok
                    &&& chain.database@ == apply_ops(kv_store@, start_changes(kv_store@).unwrap())
                    &&& chain.database.reliable() == kv_store.reliable()
                },
                Err(e) => served(
                    Err::<Seq<Op>, BlockchainError>(e),
                    start_changes(kv_store@),
                    kv_store.reliable(),
                ),
            },
    {
        let mut chain = KvStoreChain::<K> { database: kv_store };
        if chain.get_height()? == 0 {
            let genesis = get_genesis_block();
            chain.apply_block(&genesis, false)?;
        }
        Ok(chain)
    }

    /// A chain on an overlay over this chain's store: what is done to it
    /// does not reach this chain.
    pub fn fork_on_ram<'a>(&'a self) -> (fork: KvStoreChain<RamMirrorKvStore<'a, K>>)
        ensures
            fork.database.backing() == &self.database,
            fork.database.pending() == Seq::<Op>::empty(),
            fork.database@ == self.database@,
    {
        KvStoreChain { database: RamMirrorKvStore::new(&self.database) }
    }

    /// What is stored under `key`, decoded as a number.
    fn read_u64(&self, key: &Vec<u8>) -> (r: Result<Option<u64>, BlockchainError>)
        ensures
            match r {
                Ok(Some(v)) => self.database@.contains_key(key@) && dec_u64(
                    self.database@[key@],
                ) == Some(v),
                Ok(None) => !self.database@.contains_key(key@),
                Err(e) => (self.database@.contains_key(key@) && dec_u64(
                    self.database@[key@],
                ) is None && e == corrupted()) || (!self.database.reliable() && e == failure()),
            },
    {
        match self.database.get(key.as_slice()) {
            Err(e) => Err(BlockchainError::KvStoreError(e)),
            Ok(None) => Ok(None),
            Ok(Some(bytes)) => match decode_u64(bytes.as_slice()) {
                Some(v) => Ok(Some(v)),
                None => Err(BlockchainError::KvStoreError(KvStoreError::Corrupted)),
            },
        }
    }

    /// What is stored as the block at `index`, whatever the height.
    fn read_block(&self, index: u64) -> (r: Result<Block, BlockchainError>)
        ensures
            match r {
                Ok(b) => block_entry(self.database@, index) == Ok::<BlockView, BlockchainError>(b@),
                Err(e) => served(
                    Err::<BlockView, BlockchainError>(e),
                    block_entry(self.database@, index),
                    self.database.reliable(),
                ),
            },
    {
        let key = block_key(index);
        match self.database.get(key.as_slice()) {
            Err(e) => Err(BlockchainError::KvStoreError(e)),
            Ok(None) => Err(BlockchainError::Inconsistency),
            Ok(Some(bytes)) => match decode_block(bytes.as_slice()) {
                Some(b) => Ok(b),
                None => Err(BlockchainError::KvStoreError(KvStoreError::Corrupted)),
            },
        }
    }

    /// The writes of one transaction, given whether its signature holds:
    /// a regular send takes the amount and the fee from the sender, whose
    /// nonce it must follow, and gives the amount to the receiver.
    pub fn tx_ops(&self, tx: &Transaction, sig_ok: bool) -> (r: Result<Vec<WriteOp>, BlockchainError>)
        ensures
            match r {
                Ok(ops) => tx_ops_given(self.database@, *tx, sig_ok) == Ok::<
                    Seq<Op>,
                    BlockchainError,
                >(ops_view(ops@)),
                Err(e) => served(
                    Err::<Seq<Op>, BlockchainError>(e),
                    tx_ops_given(self.database@, *tx, sig_ok),
                    self.database.reliable(),
                ),
            },
            !sig_ok ==> (r matches Err(e) && e == BlockchainError::SignatureError),
    {
        reveal(tx_ops_given);
        if !sig_ok {
            return Err(BlockchainError::SignatureError);
        }
        match &tx.data {
            TransactionData::RegularSend { dst, amount } => {
                let acc_src = self.get_account(tx.src)?;
                if acc_src.nonce == u32::MAX || tx.nonce != acc_src.nonce + 1 {
                    return Err(BlockchainError::InvalidTransactionNonce);
                }
                let cost = match amount.checked_add(tx.fee) {
                    Some(cost) => cost,
                    None => {
                        return Err(BlockchainError::BalanceInsufficient);
                    },
                };
                if acc_src.balance < cost {
                    return Err(BlockchainError::BalanceInsufficient);
                }
                let mut ops: Vec<WriteOp> = Vec::new();
                if dst.same(&tx.src) {
                    let after = Account { balance: acc_src.balance - tx.fee, nonce: tx.nonce };
                    ops.push(WriteOp::Put(account_key(&tx.src), encode_account(&after)));
                    assert(ops_view(ops@) =~= tx_ops_given(self.database@, *tx, sig_ok).unwrap());
                } else {
                    let acc_dst = self.get_account(*dst)?;
                    let credited = match acc_dst.balance.checked_add(*amount) {
                        Some(balance) => Account { balance, nonce: acc_dst.nonce },
                        None => {
                            return Err(BlockchainError::Inconsistency);
                        },
                    };
                    let after = Account { balance: acc_src.balance - cost, nonce: tx.nonce };
                    ops.push(WriteOp::Put(account_key(dst), encode_account(&credited)));
                    ops.push(WriteOp::Put(account_key(&tx.src), encode_account(&after)));
                    assert(ops_view(ops@) =~= tx_ops_given(self.database@, *tx, sig_ok).unwrap());
                }
                Ok(ops)
            },
            _ => Err(BlockchainError::TransactionNotSupported),
        }
    }

    /// Applies one transaction to the store.
    pub fn apply_tx(&mut self, tx: &Transaction) -> (r: Result<(), BlockchainError>)
        ensures
            changed(
                &old(self).database,
                &final(self).database,
                r,
                tx_ops(old(self).database@, *tx),
            ),
            !signature_valid(*tx) ==> r == Err::<(), BlockchainError>(
                BlockchainError::SignatureError,
            ),
    {
        let sig_ok = tx.verify_signature();
        let ops = self.tx_ops(tx, sig_ok)?;
        let ghost before = self.database;
        match self.database.update(&ops) {
            Ok(_) => {
                proof {
                    before.lemma_steps_to(ops_view(ops@), &self.database);
                }
                Ok(())
            },
            Err(e) => Err(BlockchainError::KvStoreError(e)),
        }
    }

    /// Takes the last block off the chain: runs its journal, and removes
    /// the block, its Merkle tree and the journal.
    pub fn rollback_block(&mut self) -> (r: Result<(), BlockchainError>)
        requires
            stored_height(old(self).database@) matches Ok(h) && h > 0,
        ensures
            changed(
                &old(self).database,
                &final(self).database,
                r,
                rollback_changes(old(self).database@),
            ),
    {
        let height = self.get_height()?;
        let last = height - 1;
        let key = rollback_key(last);
        let mut rollback: Vec<WriteOp> = match self.database.get(key.as_slice()) {
            Err(e) => {
                return Err(BlockchainError::KvStoreError(e));
            },
            Ok(None) => {
                return Err(BlockchainError::Inconsistency);
            },
            Ok(Some(bytes)) => match decode_ops(bytes.as_slice()) {
                Some(ops) => ops,
                None => {
                    return Err(BlockchainError::KvStoreError(KvStoreError::Corrupted));
                },
            },
        };
        let ghost journal = ops_view(rollback@);
        rollback.push(WriteOp::Remove(block_key(last)));
        rollback.push(WriteOp::Remove(merkle_key(last)));
        rollback.push(WriteOp::Remove(key));
        assert(ops_view(rollback@) =~= rollback_changes(self.database@).unwrap());
        let ghost before = self.database;
        match self.database.update(&rollback) {
            Ok(_) => {
                proof {
                    before.lemma_steps_to(ops_view(rollback@), &self.database);
                }
                Ok(())
            },
            Err(e) => Err(BlockchainError::KvStoreError(e)),
        }
    }

    /// Holds a block's header to the chain: to the height, to the hash of
    /// the header before it and to the Merkle root of its own body; all but
    /// a draft also to its difficulty target.
    pub fn check_link(
        header: &Header,
        height: u64,
        last_hash: &Digest,
        root: &Digest,
        target_met: bool,
        draft: bool,
    ) -> (r: Result<(), BlockchainError>)
        ensures
            r == link_checks(*header, height, *last_hash, *root, target_met, draft),
    {
        if !draft && !target_met {
            Err(BlockchainError::DifficultyTargetUnmet)
        } else if header.number != height {
            Err(BlockchainError::InvalidBlockNumber)
        } else if !array_eq(&header.parent_hash, last_hash) {
            Err(BlockchainError::InvalidParentHash)
        } else if !array_eq(&header.block_root, root) {
            Err(BlockchainError::InvalidMerkleRoot)
        } else {
            Ok(())
        }
    }

    /// Puts a block on the chain. A block on a chain that is not empty is
    /// held to its header first; a draft is not held to its difficulty
    /// target. The transactions run on an overlay, so that a block that
    /// fails leaves no trace.
    pub fn apply_block(&mut self, block: &Block, draft: bool) -> (r: Result<(), BlockchainError>)
        ensures
            changed(
                &old(self).database,
                &final(self).database,
                r,
                block_changes(old(self).database@, block@, draft),
            ),
    {
        reveal(block_changes);
        let ghost m = self.database@;
        let curr_height = self.get_height()?;
        let mut known_key: Option<Digest> = None;
        if curr_height > 0 {
            let last_block = self.get_block(curr_height - 1)?;
            let target_met = if draft {
                true
            } else {
                let key = self.pow_key(block.header.number)?;
                known_key = Some(key);
                block.header.meets_target(key.as_slice())
            };
            let last_hash = last_block.header.hash();
            let root = block.merkle_tree().root();
            match Self::check_link(&block.header, curr_height, &last_hash, &root, target_met, draft) {
                Err(e) => {
                    return Err(e);
                },
                Ok(_) => {},
            }
        }
        let mut fork = self.fork_on_ram();
        let mut i: usize = 0;
        assert(block.body@.skip(0) =~= block.body@);
        while i < block.body.len()
            invariant
                i <= block.body.len(),
                m == self.database@,
                stored_height(m) == Ok::<u64, BlockchainError>(curr_height),
                known_key matches Some(key) ==> stored_pow_key(m, block.header.number) == Ok::<
                    Seq<u8>,
                    BlockchainError,
                >(key@),
                header_checks(m, curr_height, block@, draft) is Ok,
                fork.database.backing() == &self.database,
                body_pending(m, Seq::empty(), block.body@) == body_pending(
                    m,
                    fork.database.pending(),
                    block.body@.skip(i as int),
                ),
            decreases block.body.len() - i,
        {
            proof {
                reveal(block_changes);
                lemma_body_pending_step(m, fork.database.pending(), block.body@, i as int);
            }
            match fork.apply_tx(&block.body[i]) {
                Ok(_) => {},
                Err(e) => {
                    return Err(e);
                },
            }
            i = i + 1;
        }
        let mut changes = fork.database.to_ops();
        let ghost pending = ops_view(changes@);
        assert(body_pending(m, Seq::empty(), block.body@) == Ok::<Seq<Op>, BlockchainError>(pending));
        if curr_height == u64::MAX {
            return Err(BlockchainError::Inconsistency);
        }
        changes.push(WriteOp::Put(height_key(), encode_u64(curr_height + 1)));
        let pow_key = match known_key {
            Some(key) => key,
            None => self.pow_key(block.header.number)?,
        };
        let power = match self.get_power()?.checked_add(block.header.power(pow_key.as_slice())) {
            Some(power) => power,
            None => {
                return Err(BlockchainError::Inconsistency);
            },
        };
        changes.push(WriteOp::Put(power_key(curr_height), encode_u64(power)));
        assert(ops_view(changes@) =~= journaled_writes(curr_height, pending, power));
        let journal = match self.database.rollback_of(&changes) {
            Ok(journal) => journal,
            Err(e) => {
                return Err(BlockchainError::KvStoreError(e));
            },
        };
        changes.push(WriteOp::Put(rollback_key(curr_height), encode_ops(&journal)));
        changes.push(WriteOp::Put(block_key(curr_height), encode_block(block)));
        changes.push(WriteOp::Put(merkle_key(curr_height), block.merkle_tree().encode()));
        assert(ops_view(changes@) =~= block_writes(m, curr_height, pending, power, block@));
        let ghost before = self.database;
        match self.database.update(&changes) {
            Ok(_) => {
                proof {
                    before.lemma_steps_to(ops_view(changes@), &self.database);
                }
                Ok(())
            },
            Err(e) => Err(BlockchainError::KvStoreError(e)),
        }
    }

    /// The difficulty target for the next block: that of the last block.
    /// Where the height is a multiple of the retargeting interval, the
    /// block one interval back must be there too.
    pub fn next_difficulty(&self) -> (r: Result<u32, BlockchainError>)
        ensures
            served(r, next_target(self.database@), self.database.reliable()),
    {
        let height = self.get_height()?;
        if height == 0 {
            return Err(BlockchainError::BlockNotFound);
        }
        let last_block = self.get_block(height - 1)?.header;
        if height % DIFFICULTY_CALC_INTERVAL == 0 {
            let _prev_block = self.get_block(height - DIFFICULTY_CALC_INTERVAL)?.header;
            Ok(last_block.proof_of_work.target)
        } else {
            Ok(last_block.proof_of_work.target)
        }
    }

    /// The transactions in the order of their nonces; those with one nonce
    /// stay in the order in which they came.
    pub fn sort_by_nonce(txs: &Vec<Transaction>) -> (sorted: Vec<Transaction>)
        ensures
            sorted@ == sorted_by_nonce(txs@),
            sorted@.len() == txs@.len(),
    {
        let mut sorted: Vec<Transaction> = Vec::new();
        let mut i: usize = 0;
        assert(txs@.take(0) =~= Seq::<Transaction>::empty());
        while i < txs.len()
            invariant
                i <= txs.len(),
                sorted@ == sorted_by_nonce(txs@.take(i as int)),
                sorted@.len() == i,
            decreases txs.len() - i,
        {
            let t = txs[i];
            let mut pos: usize = sorted.len();
            while pos > 0 && sorted[pos - 1].nonce > t.nonce
                invariant
                    pos <= sorted.len(),
                    forall|j: int| pos <= j < sorted.len() ==> sorted@[j].nonce > t.nonce,
                decreases pos,
            {
                pos = pos - 1;
            }
            proof {
                lemma_insert_at(sorted@, t, pos as int);
                assert(txs@.take(i as int + 1).drop_last() =~= txs@.take(i as int));
                assert(txs@.take(i as int + 1).last() == t);
            }
            sorted.insert(pos, t);
            i = i + 1;
        }
        assert(txs@.take(txs@.len() as int) =~= txs@);
        sorted
    }

    /// Of a pool of transactions, those that apply one after the other, in
    /// the order of their nonces; the others are left out. They are tried on
    /// an overlay; this chain stays as it is.
    pub fn select_transactions(&self, txs: &Vec<Transaction>) -> (r: Result<
        Vec<Transaction>,
        BlockchainError,
    >)
        ensures
            match r {
                Ok(picked) => picked@ == selected(self.database@, txs@),
                Err(e) => !self.database.reliable() && e == failure(),
            },
            txs@.len() == 0 ==> r is Ok,
    {
        let ghost m = self.database@;
        let sorted = Self::sort_by_nonce(txs);
        let mut fork = self.fork_on_ram();
        let mut result: Vec<Transaction> = Vec::new();
        let mut i: usize = 0;
        assert(sorted@.skip(0) =~= sorted@);
        assert(result@ + select_from(m, Seq::empty(), sorted@) =~= select_from(
            m,
            Seq::empty(),
            sorted@,
        ));
        while i < sorted.len()
            invariant
                i <= sorted.len(),
                sorted@.len() == txs@.len(),
                m == self.database@,
                fork.database.backing() == &self.database,
                select_from(m, Seq::empty(), sorted@) == result@ + select_from(
                    m,
                    fork.database.pending(),
                    sorted@.skip(i as int),
                ),
            decreases sorted.len() - i,
        {
            let tx = sorted[i];
            let ghost pending = fork.database.pending();
            proof {
                lemma_select_step(m, pending, sorted@, i as int);
            }
            match fork.apply_tx(&tx) {
                Ok(_) => {
                    proof {
                        let ops = tx_ops(apply_ops(m, pending), tx).unwrap();
                        let rest = select_from(
                            m,
                            absorb_all(pending, ops),
                            sorted@.skip(i as int + 1),
                        );
                        assert(result@ + (seq![tx] + rest) =~= result@.push(tx) + rest);
                    }
                    result.push(tx);
                },
                Err(BlockchainError::KvStoreError(KvStoreError::Failure)) => {
                    proof {
                        lemma_tx_refusal(
                            apply_ops(m, pending),
                            tx,
                            signature_valid(tx),
                        );
                    }
                    return Err(BlockchainError::KvStoreError(KvStoreError::Failure));
                },
                Err(_) => {},
            }
            i = i + 1;
        }
        proof {
            assert(result@ + Seq::<Transaction>::empty() =~= result@);
        }
        Ok(result)
    }

    /// The block at `index` of the chain.
    pub fn get_block(&self, index: u64) -> (r: Result<Block, BlockchainError>)
        ensures
            match r {
                Ok(b) => stored_block(self.database@, index) == Ok::<BlockView, BlockchainError>(
                    b@,
                ),
                Err(e) => served(
                    Err::<BlockView, BlockchainError>(e),
                    stored_block(self.database@, index),
                    self.database.reliable(),
                ),
            },
    {
        let height = self.get_height()?;
        if index >= height {
            return Err(BlockchainError::BlockNotFound);
        }
        self.read_block(index)
    }
}

impl<K: KvStore> Blockchain for KvStoreChain<K> {
    fn get_account(&self, addr: Address) -> (r: Result<Account, BlockchainError>)
        ensures
            served(r, stored_account(self.database@, addr), self.database.reliable()),
    {
        let key = account_key(&addr);
        match self.database.get(key.as_slice()) {
            Err(e) => Err(BlockchainError::KvStoreError(e)),
            Ok(None) => Ok(
                Account {
                    balance: if addr.same(&Address::Treasury) {
                        TOTAL_SUPPLY
                    } else {
                        0
                    },
                    nonce: 0,
                },
            ),
            Ok(Some(bytes)) => match decode_account(bytes.as_slice()) {
                Some(a) => Ok(a),
                None => Err(BlockchainError::KvStoreError(KvStoreError::Corrupted)),
            },
        }
    }

    fn get_height(&self) -> (r: Result<u64, BlockchainError>)
        ensures
            served(r, stored_height(self.database@), self.database.reliable()),
    {
        let key = height_key();
        match self.read_u64(&key) {
            Err(e) => Err(e),
            Ok(None) => Ok(0),
            Ok(Some(h)) => Ok(h),
        }
    }

    fn get_power(&self) -> (r: Result<u64, BlockchainError>)
        ensures
            served(r, stored_power(self.database@), self.database.reliable()),
    {
        let height = self.get_height()?;
        if height == 0 {
            Ok(0)
        } else {
            let key = power_key(height - 1);
            match self.read_u64(&key) {
                Err(e) => Err(e),
                Ok(None) => Err(BlockchainError::Inconsistency),
                Ok(Some(p)) => Ok(p),
            }
        }
    }

    fn pow_key(&self, index: u64) -> (r: Result<Digest, BlockchainError>)
        ensures
            match r {
                Ok(key) => stored_pow_key(self.database@, index) == Ok::<Seq<u8>, BlockchainError>(
                    key@,
                ),
                Err(e) => served(
                    Err::<Seq<u8>, BlockchainError>(e),
                    stored_pow_key(self.database@, index),
                    self.database.reliable(),
                ),
            },
            index < 64 ==> r is Ok,
    {
        if index < 64 {
            Ok(base_key())
        } else {
            let reference = ((index - POW_KEY_CHANGE_DELAY) / POW_KEY_CHANGE_INTERVAL)
                * POW_KEY_CHANGE_INTERVAL;
            let block = self.get_block(reference)?;
            Ok(block.header.hash())
        }
    }

    fn will_extend(&self, from: u64, headers: &Vec<Header>) -> (r: Result<bool, BlockchainError>)
        ensures
            served(
                r,
                will_extend_answer(self.database@, from, headers@),
                self.database.reliable(),
            ),
            from == 0 ==> r == Err::<bool, BlockchainError>(BlockchainError::ExtendFromGenesis),
    {
        let ghost m = self.database@;
        if from == 0 {
            return Err(BlockchainError::ExtendFromGenesis);
        }
        let height = self.get_height()?;
        if from > height {
            return Err(BlockchainError::ExtendFromFuture);
        }
        let current_power = self.get_power()?;
        let base = match self.read_u64(&power_key(from - 1)) {
            Err(e) => {
                return Err(e);
            },
            Ok(None) => {
                return Err(BlockchainError::Inconsistency);
            },
            Ok(Some(p)) => p,
        };
        let first = self.get_block(from - 1)?.header;
        let mut new_power: u64 = base;
        let mut last_header = first;
        let mut i: usize = 0;
        assert(headers@.skip(0) =~= headers@);
        while i < headers.len()
            invariant
                i <= headers.len(),
                m == self.database@,
                from > 0,
                stored_power(m) == Ok::<u64, BlockchainError>(current_power),
                stored_height(m) == Ok::<u64, BlockchainError>(height),
                from <= height,
                power_entry(m, (from - 1) as u64) == Ok::<u64, BlockchainError>(base),
                stored_block(m, (from - 1) as u64) is Ok,
                stored_block(m, (from - 1) as u64).unwrap().header == first,
                headers_power(m, first, base, headers@) == headers_power(
                    m,
                    last_header,
                    new_power,
                    headers@.skip(i as int),
                ),
            decreases headers.len() - i,
        {
            proof {
                lemma_headers_power_step(m, last_header, new_power, headers@, i as int);
            }
            let h = headers[i];
            let pow_key = self.pow_key(h.number)?;
            if !h.meets_target(pow_key.as_slice()) {
                return Err(BlockchainError::DifficultyTargetUnmet);
            }
            if last_header.number == u64::MAX || h.number != last_header.number + 1 {
                return Err(BlockchainError::InvalidBlockNumber);
            }
            if !array_eq(&h.parent_hash, &last_header.hash()) {
                return Err(BlockchainError::InvalidParentHash);
            }
            new_power = match new_power.checked_add(h.power(pow_key.as_slice())) {
                Some(p) => p,
                None => {
                    return Err(BlockchainError::Inconsistency);
                },
            };
            last_header = h;
            i = i + 1;
        }
        Ok(new_power > current_power)
    }

    fn extend(&mut self, from: u64, blocks: &Vec<Block>) -> (r: Result<(), BlockchainError>)
        ensures
            changed(
                &old(self).database,
                &final(self).database,
                r,
                extend_changes(old(self).database@, from, blocks_view(blocks@)),
            ),
            from == 0 ==> r == Err::<(), BlockchainError>(BlockchainError::ExtendFromGenesis),
    {
        let ghost m = self.database@;
        if from == 0 {
            return Err(BlockchainError::ExtendFromGenesis);
        }
        let curr_height = self.get_height()?;
        if from > curr_height {
            return Err(BlockchainError::ExtendFromFuture);
        }
        let mut forked = self.fork_on_ram();
        let mut height = curr_height;
        while height > from
            invariant
                m == self.database@,
                from > 0,
                stored_height(m) == Ok::<u64, BlockchainError>(curr_height),
                from <= curr_height,
                forked.database.backing() == &self.database,
                stored_height(forked.database@) == Ok::<u64, BlockchainError>(height),
                rewind_pending(m, Seq::empty(), from) == rewind_pending(
                    m,
                    forked.database.pending(),
                    from,
                ),
            decreases height,
        {
            match forked.rollback_block() {
                Ok(_) => {},
                Err(e) => {
                    return Err(e);
                },
            }
            let next = match forked.get_height() {
                Ok(next) => next,
                Err(e) => {
                    return Err(e);
                },
            };
            if next == u64::MAX || next + 1 != height {
                return Err(BlockchainError::Inconsistency);
            }
            height = next;
        }
        let ghost rewound = forked.database.pending();
        let ghost all = blocks_view(blocks@);
        let mut i: usize = 0;
        assert(all.skip(0) =~= all);
        while i < blocks.len()
            invariant
                i <= blocks.len(),
                m == self.database@,
                all == blocks_view(blocks@),
                from > 0,
                stored_height(m) == Ok::<u64, BlockchainError>(curr_height),
                from <= curr_height,
                forked.database.backing() == &self.database,
                rewind_pending(m, Seq::empty(), from) == Ok::<Seq<Op>, BlockchainError>(rewound),
                blocks_pending(m, rewound, all) == blocks_pending(
                    m,
                    forked.database.pending(),
                    all.skip(i as int),
                ),
            decreases blocks.len() - i,
        {
            proof {
                lemma_blocks_pending_step(m, forked.database.pending(), all, i as int);
                assert(all[i as int] == blocks@[i as int]@);
            }
            match forked.apply_block(&blocks[i], false) {
                Ok(_) => {},
                Err(e) => {
                    return Err(e);
                },
            }
            i = i + 1;
        }
        let ops = forked.database.to_ops();
        let ghost before = self.database;
        match self.database.update(&ops) {
            Ok(_) => {
                proof {
                    before.lemma_steps_to(ops_view(ops@), &self.database);
                }
                Ok(())
            },
            Err(e) => Err(BlockchainError::KvStoreError(e)),
        }
    }

    fn draft_block(&self, mempool: &Vec<Transaction>, wallet: &Wallet) -> (r: Result<
        Block,
        BlockchainError,
    >)
        ensures
            match r {
                Ok(block) => draft_answer(self.database@, mempool@) == Ok::<
                    BlockView,
                    BlockchainError,
                >(block@),
                Err(e) => served(
                    Err::<BlockView, BlockchainError>(e),
                    draft_answer(self.database@, mempool@),
                    self.database.reliable(),
                ),
            },
    {
        let height = self.get_height()?;
        if height == 0 {
            return Err(BlockchainError::BlockNotFound);
        }
        let last_block = self.get_block(height - 1)?;
        let body = match self.select_transactions(mempool) {
            Ok(body) => body,
            Err(e) => {
                return Err(e);
            },
        };
        let mut blk = Block {
            header: Header {
                parent_hash: last_block.header.hash(),
                number: height,
                block_root: [0u8; 32],
                proof_of_work: ProofOfWork {
                    timestamp: 0,
                    target: last_block.header.proof_of_work.target,
                    nonce: 0,
                },
            },
            body,
        };
        blk.header.block_root = blk.merkle_tree().root();
        let mut fork = self.fork_on_ram();
        match fork.apply_block(&blk, true) {
            Ok(_) => Ok(blk),
            Err(e) => Err(e),
        }
    }

    fn get_headers(&self, since: u64, until: Option<u64>) -> (r: Result<Vec<Header>, BlockchainError>)
        ensures
            match r {
                Ok(hs) => stored_blocks(self.database@, since, until) is Ok && hs@ == headers_of(
                    stored_blocks(self.database@, since, until).unwrap(),
                ),
                Err(e) => served(
                    Err::<Seq<BlockView>, BlockchainError>(e),
                    stored_blocks(self.database@, since, until),
                    self.database.reliable(),
                ),
            },
    {
        let blocks = self.get_blocks(since, until)?;
        let mut headers: Vec<Header> = Vec::new();
        let mut i: usize = 0;
        while i < blocks.len()
            invariant
                i <= blocks.len(),
                headers@ == headers_of(blocks_view(blocks@)).take(i as int),
            decreases blocks.len() - i,
        {
            headers.push(blocks[i].header);
            assert(headers@ =~= headers_of(blocks_view(blocks@)).take(i as int + 1));
            i = i + 1;
        }
        assert(headers@ =~= headers_of(blocks_view(blocks@)));
        Ok(headers)
    }

    fn get_blocks(&self, since: u64, until: Option<u64>) -> (r: Result<Vec<Block>, BlockchainError>)
        ensures
            match r {
                Ok(bs) => stored_blocks(self.database@, since, until) == Ok::<
                    Seq<BlockView>,
                    BlockchainError,
                >(blocks_view(bs@)),
                Err(e) => served(
                    Err::<Seq<BlockView>, BlockchainError>(e),
                    stored_blocks(self.database@, since, until),
                    self.database.reliable(),
                ),
            },
    {
        let ghost m = self.database@;
        let height = self.get_height()?;
        let end = match until {
            Some(u) => if u < height {
                u
            } else {
                height
            },
            None => height,
        };
        let mut blks: Vec<Block> = Vec::new();
        let mut i: u64 = since;
        assert(blocks_view(blks@) =~= Seq::empty());
        while i < end
            invariant
                m == self.database@,
                since <= i,
                stored_height(m) == Ok::<u64, BlockchainError>(height),
                end == range_end(height, until),
                blocks_between(m, since, end) == (match blocks_between(m, i, end) {
                    Ok(rest) => Ok::<Seq<BlockView>, BlockchainError>(blocks_view(blks@) + rest),
                    Err(e) => Err(e),
                }),
            decreases end - i,
        {
            let block = match self.read_block(i) {
                Ok(block) => block,
                Err(e) => {
                    return Err(e);
                },
            };
            proof {
                let before = blocks_view(blks@);
                assert(blocks_view(blks@.push(block)) =~= before.push(block@));
                match blocks_between(m, (i + 1) as u64, end) {
                    Ok(rest) => {
                        assert(before + (seq![block@] + rest) =~= before.push(block@) + rest);
                    },
                    Err(_) => {},
                }
            }
            blks.push(block);
            i = i + 1;
        }
        proof {
            assert(blocks_view(blks@) + Seq::empty() =~= blocks_view(blks@));
        }
        Ok(blks)
    }
}

/// Speculation is isolated: whatever is done to a chain on an overlay,
/// and however it ends, the store under the overlay is the store that it
/// was, with the content that it had.
pub proof fn lemma_fork_isolated<'a, K: KvStore>(
    before: &RamMirrorKvStore<'a, K>,
    after: &RamMirrorKvStore<'a, K>,
    r: Result<(), BlockchainError>,
    changes: Result<Seq<Op>, BlockchainError>,
)
    requires
        changed(before, after, r, changes),
    ensures
        after.backing() == before.backing(),
        after.backing()@ == before.backing()@,
        r is Err ==> after.pending() == before.pending(),
{
}

} // verus!
