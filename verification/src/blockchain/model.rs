//! What each operation of the chain does, as functions of the store's
//! logical content. A reading gives a value or an error; a change gives the
//! batch of writes that it commits, or an error and no write at all.

use vstd::prelude::*;
use crate::blockchain::keys::{
    key_account,
    key_block,
    key_height,
    key_merkle,
    key_power,
    key_rollback,
};
use crate::blockchain::BlockchainError;
use crate::codec::{
    dec_account,
    dec_block,
    dec_ops,
    dec_u64,
    enc_account,
    enc_block,
    enc_digests,
    enc_ops,
    enc_u64,
};
use crate::config::genesis::genesis_block;
use crate::config::{
    pow_base_key,
    DIFFICULTY_CALC_INTERVAL,
    POW_KEY_CHANGE_DELAY,
    POW_KEY_CHANGE_INTERVAL,
    TOTAL_SUPPLY,
};
use crate::db::{absorb_all, apply_ops, inverse_ops, lookup, KvStoreError, Op, Store};
use crate::merkle::tree_nodes;
use crate::types::blocks::{body_leaves, body_root};
use crate::types::header::{header_digest, header_meets_target, header_power};
use crate::types::transaction::signature_valid;
use crate::types::{
    Account,
    Address,
    Block,
    BlockView,
    Header,
    ProofOfWork,
    Transaction,
    TransactionData,
};

verus! {

/// The error for a stored value that does not decode.
pub open spec fn corrupted() -> BlockchainError {
    BlockchainError::KvStoreError(KvStoreError::Corrupted)
}

/// The error for a store that did not serve a request.
pub open spec fn failure() -> BlockchainError {
    BlockchainError::KvStoreError(KvStoreError::Failure)
}

/// The number of blocks on the chain: what is stored under `height`, and 0
/// where nothing is.
pub open spec fn stored_height(m: Store) -> Result<u64, BlockchainError> {
    match lookup(m, key_height()) {
        None => Ok(0),
        Some(bytes) => match dec_u64(bytes) {
            Some(h) => Ok(h),
            None => Err(corrupted()),
        },
    }
}

/// What is stored as the block at `index`, whatever the height.
pub open spec fn block_entry(m: Store, index: u64) -> Result<BlockView, BlockchainError> {
    match lookup(m, key_block(index)) {
        None => Err(BlockchainError::Inconsistency),
        Some(bytes) => match dec_block(bytes) {
            Some(b) => Ok(b),
            None => Err(corrupted()),
        },
    }
}

/// The block at `index` of the chain.
pub open spec fn stored_block(m: Store, index: u64) -> Result<BlockView, BlockchainError> {
    match stored_height(m) {
        Err(e) => Err(e),
        Ok(h) => if index >= h {
            Err(BlockchainError::BlockNotFound)
        } else {
            block_entry(m, index)
        },
    }
}

/// The account that an address has before anything is stored for it: the
/// treasury holds all the supply, anyone else nothing.
pub open spec fn initial_account(addr: Address) -> Account {
    Account {
        balance: if addr == Address::Treasury {
            TOTAL_SUPPLY
        } else {
            0
        },
        nonce: 0,
    }
}

/// The account of an address.
pub open spec fn stored_account(m: Store, addr: Address) -> Result<Account, BlockchainError> {
    match lookup(m, key_account(addr)) {
        None => Ok(initial_account(addr)),
        Some(bytes) => match dec_account(bytes) {
            Some(a) => Ok(a),
            None => Err(corrupted()),
        },
    }
}

/// What is stored as the accumulated power through the block at `index`.
pub open spec fn power_entry(m: Store, index: u64) -> Result<u64, BlockchainError> {
    match lookup(m, key_power(index)) {
        None => Err(BlockchainError::Inconsistency),
        Some(bytes) => match dec_u64(bytes) {
            Some(p) => Ok(p),
            None => Err(corrupted()),
        },
    }
}

/// The accumulated power of the chain: that through its last block, and 0
/// for the empty chain.
pub open spec fn stored_power(m: Store) -> Result<u64, BlockchainError> {
    match stored_height(m) {
        Err(e) => Err(e),
        Ok(h) => if h == 0 {
            Ok(0)
        } else {
            power_entry(m, (h - 1) as u64)
        },
    }
}

/// The block whose hash keys the proof of work of block `index`, for
/// `index` from 64 on.
pub open spec fn pow_key_reference(index: u64) -> u64 {
    (((index - POW_KEY_CHANGE_DELAY) / (POW_KEY_CHANGE_INTERVAL as int))
        * POW_KEY_CHANGE_INTERVAL) as u64
}

/// The key under which the proof of work of block `index` is judged.
pub open spec fn stored_pow_key(m: Store, index: u64) -> Result<Seq<u8>, BlockchainError> {
    if index < 64 {
        Ok(pow_base_key())
    } else {
        match stored_block(m, pow_key_reference(index)) {
            Err(e) => Err(e),
            Ok(b) => Ok(header_digest(b.header)@),
        }
    }
}

/// The writes of one transaction, given whether its signature holds.
#[verifier::opaque]
pub open spec fn tx_ops_given(m: Store, tx: Transaction, sig_ok: bool) -> Result<
    Seq<Op>,
    BlockchainError,
> {
    if !sig_ok {
        Err(BlockchainError::SignatureError)
    } else {
        match tx.data {
            TransactionData::RegularSend { dst, amount } => match stored_account(m, tx.src) {
                Err(e) => Err(e),
                Ok(acc_src) => if tx.nonce != acc_src.nonce + 1 {
                    Err(BlockchainError::InvalidTransactionNonce)
                } else if acc_src.balance < amount + tx.fee {
                    Err(BlockchainError::BalanceInsufficient)
                } else if dst == tx.src {
                    Ok(
                        seq![
                            Op::Put(
                                key_account(tx.src),
                                enc_account(
                                    Account {
                                        balance: (acc_src.balance - tx.fee) as u64,
                                        nonce: tx.nonce,
                                    },
                                ),
                            ),
                        ],
                    )
                } else {
                    match stored_account(m, dst) {
                        Err(e) => Err(e),
                        Ok(acc_dst) => if acc_dst.balance + amount > u64::MAX {
                            Err(BlockchainError::Inconsistency)
                        } else {
                            Ok(
                                seq![
                                    Op::Put(
                                        key_account(dst),
                                        enc_account(
                                            Account {
                                                balance: (acc_dst.balance + amount) as u64,
                                                nonce: acc_dst.nonce,
                                            },
                                        ),
                                    ),
                                    Op::Put(
                                        key_account(tx.src),
                                        enc_account(
                                            Account {
                                                balance: (acc_src.balance - amount - tx.fee) as u64,
                                                nonce: tx.nonce,
                                            },
                                        ),
                                    ),
                                ],
                            )
                        },
                    }
                },
            },
            _ => Err(BlockchainError::TransactionNotSupported),
        }
    }
}

/// The writes of one transaction.
pub open spec fn tx_ops(m: Store, tx: Transaction) -> Result<Seq<Op>, BlockchainError> {
    tx_ops_given(m, tx, signature_valid(tx))
}

/// What a transaction is refused for is never a failure of the store: a
/// content of a store is there to be read.
pub proof fn lemma_tx_refusal(m: Store, tx: Transaction, sig_ok: bool)
    ensures
        tx_ops_given(m, tx, sig_ok) != Err::<Seq<Op>, BlockchainError>(failure()),
{
    reveal(tx_ops_given);
}

/// The pending batch of an overlay on `m` after the transactions of `body`
/// were applied to it in order, starting from the batch `pending`.
pub open spec fn body_pending(m: Store, pending: Seq<Op>, body: Seq<Transaction>) -> Result<
    Seq<Op>,
    BlockchainError,
>
    decreases body.len(),
{
    if body.len() == 0 {
        Ok(pending)
    } else {
        match tx_ops(apply_ops(m, pending), body[0]) {
            Err(e) => Err(e),
            Ok(ops) => body_pending(m, absorb_all(pending, ops), body.drop_first()),
        }
    }
}

/// What a block's header is held to, given the header of the block before
/// it, the Merkle root of its own body, and whether its proof of work is
/// within its target.
pub open spec fn link_checks(
    header: Header,
    height: u64,
    last_hash: [u8; 32],
    root: [u8; 32],
    target_met: bool,
    draft: bool,
) -> Result<(), BlockchainError> {
    if !draft && !target_met {
        Err(BlockchainError::DifficultyTargetUnmet)
    } else if header.number != height {
        Err(BlockchainError::InvalidBlockNumber)
    } else if header.parent_hash != last_hash {
        Err(BlockchainError::InvalidParentHash)
    } else if header.block_root != root {
        Err(BlockchainError::InvalidMerkleRoot)
    } else {
        Ok(())
    }
}

/// Whether a block's proof of work counts as within its target. A draft is
/// not asked, and no key is read for it; any other block is judged under
/// the key of its number.
pub open spec fn target_checked(m: Store, block: BlockView, draft: bool) -> Result<
    bool,
    BlockchainError,
> {
    if draft {
        Ok(true)
    } else {
        match stored_pow_key(m, block.header.number) {
            Err(e) => Err(e),
            Ok(key) => Ok(header_meets_target(block.header, key)),
        }
    }
}

/// What a block's header is held to on a chain of height `h`: with the
/// last block at hand, first the target, for all but a draft, then the
/// number, the parent hash and the Merkle root. The first block of a
/// chain is held to nothing.
pub open spec fn header_checks(m: Store, h: u64, block: BlockView, draft: bool) -> Result<
    (),
    BlockchainError,
> {
    if h == 0 {
        Ok(())
    } else {
        match stored_block(m, (h - 1) as u64) {
            Err(e) => Err(e),
            Ok(last) => match target_checked(m, block, draft) {
                Err(e) => Err(e),
                Ok(target_met) => link_checks(
                    block.header,
                    h,
                    header_digest(last.header),
                    body_root(block.body),
                    target_met,
                    draft,
                ),
            },
        }
    }
}

/// The writes that put a block on the chain: those of its transactions,
/// the new height, the accumulated power, the journal that undoes all of
/// these, the block and its Merkle tree. The header is checked first, then
/// the transactions run; the key under which the block's power is counted
/// is read after that.
#[verifier::opaque]
pub open spec fn block_changes(m: Store, block: BlockView, draft: bool) -> Result<
    Seq<Op>,
    BlockchainError,
> {
    match stored_height(m) {
        Err(e) => Err(e),
        Ok(h) => match header_checks(m, h, block, draft) {
            Err(e) => Err(e),
            Ok(_) => match body_pending(m, Seq::empty(), block.body) {
                Err(e) => Err(e),
                Ok(pending) => if h == u64::MAX {
                    Err(BlockchainError::Inconsistency)
                } else {
                    match stored_pow_key(m, block.header.number) {
                        Err(e) => Err(e),
                        Ok(key) => match stored_power(m) {
                            Err(e) => Err(e),
                            Ok(power) => if power + header_power(block.header, key) > u64::MAX {
                                Err(BlockchainError::Inconsistency)
                            } else {
                                Ok(
                                    block_writes(
                                        m,
                                        h,
                                        pending,
                                        (power + header_power(block.header, key)) as u64,
                                        block,
                                    ),
                                )
                            },
                        },
                    }
                },
            },
        },
    }
}

/// The writes of a block's transactions with the new height and power:
/// what the block's journal undoes.
pub open spec fn journaled_writes(h: u64, pending: Seq<Op>, power: u64) -> Seq<Op> {
    pending.push(Op::Put(key_height(), enc_u64((h + 1) as u64))).push(
        Op::Put(key_power(h), enc_u64(power)),
    )
}

/// All the writes of a block at height `h`.
pub open spec fn block_writes(m: Store, h: u64, pending: Seq<Op>, power: u64, block: BlockView) -> Seq<
    Op,
> {
    let journaled = journaled_writes(h, pending, power);
    journaled.push(Op::Put(key_rollback(h), enc_ops(inverse_ops(m, journaled)))).push(
        Op::Put(key_block(h), enc_block(block)),
    ).push(Op::Put(key_merkle(h), enc_digests(tree_nodes(body_leaves(block.body)))))
}

/// The writes that take the last block off the chain: its journal, and the
/// removal of the block, of its Merkle tree and of the journal itself.
pub open spec fn rollback_changes(m: Store) -> Result<Seq<Op>, BlockchainError> {
    match stored_height(m) {
        Err(e) => Err(e),
        Ok(h) => if h == 0 {
            Err(BlockchainError::Inconsistency)
        } else {
            let last = (h - 1) as u64;
            match lookup(m, key_rollback(last)) {
                None => Err(BlockchainError::Inconsistency),
                Some(bytes) => match dec_ops(bytes) {
                    None => Err(corrupted()),
                    Some(journal) => Ok(
                        journal.push(Op::Remove(key_block(last))).push(
                            Op::Remove(key_merkle(last)),
                        ).push(Op::Remove(key_rollback(last))),
                    ),
                },
            }
        },
    }
}

/// The height as a number to count down by: 0 where it cannot be read.
pub open spec fn height_or_zero(m: Store) -> nat {
    match stored_height(m) {
        Ok(h) => h as nat,
        Err(_) => 0,
    }
}

/// The pending batch of an overlay on `m` after blocks were rolled back
/// until the height was `from`. A rollback that does not lower the height
/// by one is an inconsistency.
pub open spec fn rewind_pending(m: Store, pending: Seq<Op>, from: u64) -> Result<
    Seq<Op>,
    BlockchainError,
>
    decreases height_or_zero(apply_ops(m, pending)),
{
    let now = apply_ops(m, pending);
    match stored_height(now) {
        Err(e) => Err(e),
        Ok(h) => if h <= from {
            Ok(pending)
        } else {
            match rollback_changes(now) {
                Err(e) => Err(e),
                Ok(changes) => {
                    let next = absorb_all(pending, changes);
                    match stored_height(apply_ops(m, next)) {
                        Err(e) => Err(e),
                        Ok(h2) => if h2 + 1 != h {
                            Err(BlockchainError::Inconsistency)
                        } else {
                            rewind_pending(m, next, from)
                        },
                    }
                },
            }
        },
    }
}

/// The pending batch of an overlay on `m` after `blocks` were applied in
/// order, each with full validation.
pub open spec fn blocks_pending(m: Store, pending: Seq<Op>, blocks: Seq<BlockView>) -> Result<
    Seq<Op>,
    BlockchainError,
>
    decreases blocks.len(),
{
    if blocks.len() == 0 {
        Ok(pending)
    } else {
        match block_changes(apply_ops(m, pending), blocks[0], false) {
            Err(e) => Err(e),
            Ok(changes) => blocks_pending(m, absorb_all(pending, changes), blocks.drop_first()),
        }
    }
}

/// The writes that replace the chain from height `from` on by `blocks`.
/// The first block cannot be replaced, and the chain must reach `from`.
pub open spec fn extend_changes(m: Store, from: u64, blocks: Seq<BlockView>) -> Result<
    Seq<Op>,
    BlockchainError,
> {
    if from == 0 {
        Err(BlockchainError::ExtendFromGenesis)
    } else {
        match stored_height(m) {
            Err(e) => Err(e),
            Ok(h) => if from > h {
                Err(BlockchainError::ExtendFromFuture)
            } else {
                match rewind_pending(m, Seq::empty(), from) {
                    Err(e) => Err(e),
                    Ok(pending) => blocks_pending(m, pending, blocks),
                }
            },
        }
    }
}

/// The accumulated power that a run of headers would bring the chain to,
/// starting from `power` after the header `last`.
pub open spec fn headers_power(m: Store, last: Header, power: u64, headers: Seq<Header>) -> Result<
    u64,
    BlockchainError,
>
    decreases headers.len(),
{
    if headers.len() == 0 {
        Ok(power)
    } else {
        let h = headers[0];
        match stored_pow_key(m, h.number) {
            Err(e) => Err(e),
            Ok(key) => if !header_meets_target(h, key) {
                Err(BlockchainError::DifficultyTargetUnmet)
            } else if h.number != last.number + 1 {
                Err(BlockchainError::InvalidBlockNumber)
            } else if h.parent_hash != header_digest(last) {
                Err(BlockchainError::InvalidParentHash)
            } else if power + header_power(h, key) > u64::MAX {
                Err(BlockchainError::Inconsistency)
            } else {
                headers_power(
                    m,
                    h,
                    (power + header_power(h, key)) as u64,
                    headers.drop_first(),
                )
            },
        }
    }
}

/// Whether a run of headers, put on the chain from height `from` on, would
/// carry more accumulated power than the chain has now. `from` is tested
/// before anything else is read.
pub open spec fn will_extend_answer(m: Store, from: u64, headers: Seq<Header>) -> Result<
    bool,
    BlockchainError,
> {
    if from == 0 {
        Err(BlockchainError::ExtendFromGenesis)
    } else {
        match stored_height(m) {
            Err(e) => Err(e),
            Ok(h) => if from > h {
                Err(BlockchainError::ExtendFromFuture)
            } else {
                match stored_power(m) {
                    Err(e) => Err(e),
                    Ok(current) => match power_entry(m, (from - 1) as u64) {
                        Err(e) => Err(e),
                        Ok(base) => match stored_block(m, (from - 1) as u64) {
                            Err(e) => Err(e),
                            Ok(last) => match headers_power(m, last.header, base, headers) {
                                Err(e) => Err(e),
                                Ok(power) => Ok(power > current),
                            },
                        },
                    },
                }
            },
        }
    }
}

/// The blocks stored at the heights from `since` up to `end`, in order.
pub open spec fn blocks_between(m: Store, since: u64, end: u64) -> Result<
    Seq<BlockView>,
    BlockchainError,
>
    decreases end - since,
{
    if since >= end {
        Ok(Seq::empty())
    } else {
        match block_entry(m, since) {
            Err(e) => Err(e),
            Ok(b) => match blocks_between(m, (since + 1) as u64, end) {
                Err(e) => Err(e),
                Ok(rest) => Ok(seq![b] + rest),
            },
        }
    }
}

/// Where a range of blocks ends: at `until`, and at the height at the latest.
pub open spec fn range_end(height: u64, until: Option<u64>) -> u64 {
    match until {
        Some(u) => if u < height {
            u
        } else {
            height
        },
        None => height,
    }
}

/// The blocks of the chain from `since` up to `until`.
pub open spec fn stored_blocks(m: Store, since: u64, until: Option<u64>) -> Result<
    Seq<BlockView>,
    BlockchainError,
> {
    match stored_height(m) {
        Err(e) => Err(e),
        Ok(h) => blocks_between(m, since, range_end(h, until)),
    }
}

/// The headers of a run of blocks.
pub open spec fn headers_of(blocks: Seq<BlockView>) -> Seq<Header> {
    blocks.map_values(|b: BlockView| b.header)
}

/// The values of a run of blocks.
pub open spec fn blocks_view(blocks: Seq<Block>) -> Seq<BlockView> {
    blocks.map_values(|b: Block| b@)
}

/// A new chain on a store: one that holds no block yet gets the first block.
pub open spec fn start_changes(m: Store) -> Result<Seq<Op>, BlockchainError> {
    match stored_height(m) {
        Err(e) => Err(e),
        Ok(h) => if h == 0 {
            block_changes(m, genesis_block(), false)
        } else {
            Ok(Seq::empty())
        },
    }
}

/// What `body_pending` does with the transaction at position `i`.
pub proof fn lemma_body_pending_step(m: Store, pending: Seq<Op>, body: Seq<Transaction>, i: int)
    requires
        0 <= i < body.len(),
    ensures
        body_pending(m, pending, body.skip(i)) == (match tx_ops(apply_ops(m, pending), body[i]) {
            Err(e) => Err(e),
            Ok(ops) => body_pending(m, absorb_all(pending, ops), body.skip(i + 1)),
        }),
{
    let rest = body.skip(i);
    assert(rest[0] == body[i]);
    assert(rest.drop_first() =~= body.skip(i + 1));
}

/// What `blocks_pending` does with the block at position `i`.
pub proof fn lemma_blocks_pending_step(m: Store, pending: Seq<Op>, blocks: Seq<BlockView>, i: int)
    requires
        0 <= i < blocks.len(),
    ensures
        blocks_pending(m, pending, blocks.skip(i)) == (match block_changes(
            apply_ops(m, pending),
            blocks[i],
            false,
        ) {
            Err(e) => Err(e),
            Ok(changes) => blocks_pending(m, absorb_all(pending, changes), blocks.skip(i + 1)),
        }),
{
    let rest = blocks.skip(i);
    assert(rest[0] == blocks[i]);
    assert(rest.drop_first() =~= blocks.skip(i + 1));
}

/// What `headers_power` does with the header at position `i`.
pub proof fn lemma_headers_power_step(
    m: Store,
    last: Header,
    power: u64,
    headers: Seq<Header>,
    i: int,
)
    requires
        0 <= i < headers.len(),
    ensures
        headers_power(m, last, power, headers.skip(i)) == ({
            let h = headers[i];
            match stored_pow_key(m, h.number) {
                Err(e) => Err(e),
                Ok(key) => if !header_meets_target(h, key) {
                    Err(BlockchainError::DifficultyTargetUnmet)
                } else if h.number != last.number + 1 {
                    Err(BlockchainError::InvalidBlockNumber)
                } else if h.parent_hash != header_digest(last) {
                    Err(BlockchainError::InvalidParentHash)
                } else if power + header_power(h, key) > u64::MAX {
                    Err(BlockchainError::Inconsistency)
                } else {
                    headers_power(m, h, (power + header_power(h, key)) as u64, headers.skip(i + 1))
                },
            }
        }),
{
    let rest = headers.skip(i);
    assert(rest[0] == headers[i]);
    assert(rest.drop_first() =~= headers.skip(i + 1));
}

/// A run of transactions in the order of their nonces, with one more put
/// in: behind every transaction whose nonce is not greater than its own.
pub open spec fn insert_by_nonce(sorted: Seq<Transaction>, t: Transaction) -> Seq<Transaction>
    decreases sorted.len(),
{
    if sorted.len() == 0 {
        seq![t]
    } else if sorted.last().nonce <= t.nonce {
        sorted.push(t)
    } else {
        insert_by_nonce(sorted.drop_last(), t).push(sorted.last())
    }
}

/// The transactions in the order of their nonces; those with one nonce
/// stay in the order in which they came.
pub open spec fn sorted_by_nonce(txs: Seq<Transaction>) -> Seq<Transaction>
    decreases txs.len(),
{
    if txs.len() == 0 {
        Seq::empty()
    } else {
        insert_by_nonce(sorted_by_nonce(txs.drop_last()), txs.last())
    }
}

/// Whether the nonces of a run of transactions never go down.
pub open spec fn nonces_ordered(txs: Seq<Transaction>) -> bool {
    forall|i: int, j: int| 0 <= i <= j < txs.len() ==> txs[i].nonce <= txs[j].nonce
}

/// Where the insertion puts a transaction: at the position from which on
/// all nonces are greater, and before which the nonce is not.
pub proof fn lemma_insert_at(sorted: Seq<Transaction>, t: Transaction, pos: int)
    requires
        0 <= pos <= sorted.len(),
        forall|j: int| pos <= j < sorted.len() ==> sorted[j].nonce > t.nonce,
        pos == 0 || sorted[pos - 1].nonce <= t.nonce,
    ensures
        insert_by_nonce(sorted, t) == sorted.insert(pos, t),
    decreases sorted.len(),
{
    if sorted.len() == 0 {
        assert(sorted.insert(0, t) =~= seq![t]);
    } else if pos == sorted.len() {
        assert(sorted.insert(pos, t) =~= sorted.push(t));
    } else {
        lemma_insert_at(sorted.drop_last(), t, pos);
        assert(sorted.drop_last().insert(pos, t).push(sorted.last()) =~= sorted.insert(pos, t));
    }
}

/// Insertion keeps the nonces in order, and keeps every transaction.
pub proof fn lemma_insert_ordered(sorted: Seq<Transaction>, t: Transaction)
    requires
        nonces_ordered(sorted),
    ensures
        nonces_ordered(insert_by_nonce(sorted, t)),
        insert_by_nonce(sorted, t).to_multiset() == sorted.to_multiset().insert(t),
    decreases sorted.len(),
{
    broadcast use vstd::seq_lib::group_to_multiset_ensures;

    if sorted.len() == 0 {
        assert(sorted =~= Seq::empty());
    } else if sorted.last().nonce <= t.nonce {
    } else {
        let front = sorted.drop_last();
        lemma_insert_ordered(front, t);
        let placed = insert_by_nonce(front, t);
        assert(sorted =~= front.push(sorted.last()));
        assert forall|i: int, j: int| 0 <= i <= j < placed.push(sorted.last()).len() implies placed.push(
            sorted.last(),
        )[i].nonce <= placed.push(sorted.last())[j].nonce by {
            if j == placed.len() && i < placed.len() {
                assert(placed.to_multiset().contains(placed[i]));
                if placed[i] != t {
                    assert(front.to_multiset().contains(placed[i]));
                    let k = choose|k: int| 0 <= k < front.len() && front[k] == placed[i];
                    assert(sorted[k] == front[k]);
                }
            }
        }
    }
}

/// Sorting by nonce orders the nonces and keeps every transaction, as
/// often as it came.
pub proof fn lemma_sorted_by_nonce(txs: Seq<Transaction>)
    ensures
        nonces_ordered(sorted_by_nonce(txs)),
        sorted_by_nonce(txs).to_multiset() == txs.to_multiset(),
    decreases txs.len(),
{
    broadcast use vstd::seq_lib::group_to_multiset_ensures;

    if txs.len() == 0 {
        assert(txs =~= Seq::empty());
    } else {
        lemma_sorted_by_nonce(txs.drop_last());
        lemma_insert_ordered(sorted_by_nonce(txs.drop_last()), txs.last());
        assert(txs =~= txs.drop_last().push(txs.last()));
    }
}

/// Of the transactions `txs`, tried in order on an overlay on `m` that
/// starts from the batch `pending`, those that apply.
pub open spec fn select_from(m: Store, pending: Seq<Op>, txs: Seq<Transaction>) -> Seq<Transaction>
    decreases txs.len(),
{
    if txs.len() == 0 {
        Seq::empty()
    } else {
        match tx_ops(apply_ops(m, pending), txs[0]) {
            Ok(ops) => seq![txs[0]] + select_from(m, absorb_all(pending, ops), txs.drop_first()),
            Err(_) => select_from(m, pending, txs.drop_first()),
        }
    }
}

/// What `select_from` does with the transaction at position `i`.
pub proof fn lemma_select_step(m: Store, pending: Seq<Op>, txs: Seq<Transaction>, i: int)
    requires
        0 <= i < txs.len(),
    ensures
        select_from(m, pending, txs.skip(i)) == (match tx_ops(apply_ops(m, pending), txs[i]) {
            Ok(ops) => seq![txs[i]] + select_from(m, absorb_all(pending, ops), txs.skip(i + 1)),
            Err(_) => select_from(m, pending, txs.skip(i + 1)),
        }),
{
    let rest = txs.skip(i);
    assert(rest[0] == txs[i]);
    assert(rest.drop_first() =~= txs.skip(i + 1));
}

/// What is selected applies: the transactions that `select_from` keeps
/// apply one after the other, so that a body made of them is not refused.
pub proof fn lemma_selected_apply(m: Store, pending: Seq<Op>, txs: Seq<Transaction>)
    ensures
        body_pending(m, pending, select_from(m, pending, txs)) is Ok,
    decreases txs.len(),
{
    if txs.len() > 0 {
        match tx_ops(apply_ops(m, pending), txs[0]) {
            Ok(ops) => {
                let next = absorb_all(pending, ops);
                lemma_selected_apply(m, next, txs.drop_first());
                let kept = seq![txs[0]] + select_from(m, next, txs.drop_first());
                assert(kept[0] == txs[0]);
                assert(kept.drop_first() =~= select_from(m, next, txs.drop_first()));
            },
            Err(_) => {
                lemma_selected_apply(m, pending, txs.drop_first());
            },
        }
    }
}

/// The transactions that a draft takes from a pool: in the order of their
/// nonces, those that apply one after the other.
pub open spec fn selected(m: Store, pool: Seq<Transaction>) -> Seq<Transaction> {
    select_from(m, Seq::empty(), sorted_by_nonce(pool))
}

/// The block that is drafted on the block `last` at height `h` with `body`.
pub open spec fn draft_on(last: Header, h: u64, body: Seq<Transaction>) -> BlockView {
    BlockView {
        header: Header {
            parent_hash: header_digest(last),
            number: h,
            block_root: body_root(body),
            proof_of_work: ProofOfWork {
                timestamp: 0,
                target: last.proof_of_work.target,
                nonce: 0,
            },
        },
        body,
    }
}

/// The candidate block for the next height, made of the transactions of a
/// pool that apply.
pub open spec fn draft_answer(m: Store, pool: Seq<Transaction>) -> Result<BlockView, BlockchainError> {
    match stored_height(m) {
        Err(e) => Err(e),
        Ok(h) => if h == 0 {
            Err(BlockchainError::BlockNotFound)
        } else {
            match stored_block(m, (h - 1) as u64) {
                Err(e) => Err(e),
                Ok(last) => {
                    let block = draft_on(last.header, h, selected(m, pool));
                    match block_changes(m, block, true) {
                        Err(e) => Err(e),
                        Ok(_) => Ok(block),
                    }
                },
            }
        },
    }
}

/// The difficulty target for the next block: that of the last block.
pub open spec fn next_target(m: Store) -> Result<u32, BlockchainError> {
    match stored_height(m) {
        Err(e) => Err(e),
        Ok(h) => if h == 0 {
            Err(BlockchainError::BlockNotFound)
        } else {
            match stored_block(m, (h - 1) as u64) {
                Err(e) => Err(e),
                Ok(last) => if h % DIFFICULTY_CALC_INTERVAL == 0 {
                    match stored_block(m, (h - DIFFICULTY_CALC_INTERVAL) as u64) {
                        Err(e) => Err(e),
                        Ok(_) => Ok(last.header.proof_of_work.target),
                    }
                } else {
                    Ok(last.header.proof_of_work.target)
                },
            }
        },
    }
}

} // verus!
