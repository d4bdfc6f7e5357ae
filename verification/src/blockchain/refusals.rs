//! When a transaction or a block is refused, and with which error, told
//! from the content of the store alone.

use vstd::prelude::*;
use crate::blockchain::model::{
    block_changes,
    body_pending,
    header_checks,
    link_checks,
    stored_account,
    stored_block,
    stored_height,
    target_checked,
    tx_ops,
    tx_ops_given,
};
use crate::blockchain::BlockchainError;
use crate::db::{absorb_all, apply_ops, Op, Store};
use crate::types::blocks::body_root;
use crate::types::header::header_digest;
use crate::types::transaction::signature_valid;
use crate::types::{BlockView, Transaction, TransactionData};

verus! {

/// A transaction that its sender did not sign is refused for that,
/// whatever else holds of it.
pub proof fn lemma_unsigned_refused(m: Store, tx: Transaction)
    requires
        !signature_valid(tx),
    ensures
        tx_ops(m, tx) == Err::<Seq<Op>, BlockchainError>(BlockchainError::SignatureError),
{
    reveal(tx_ops_given);
}

/// A signed regular send whose nonce does not follow its sender's is
/// refused for its nonce: one that repeats a nonce as well as one that
/// leaves a gap.
pub proof fn lemma_nonce_refused(m: Store, tx: Transaction)
    requires
        signature_valid(tx),
        tx.data is RegularSend,
        stored_account(m, tx.src) is Ok,
        tx.nonce != stored_account(m, tx.src).unwrap().nonce + 1,
    ensures
        tx_ops(m, tx) == Err::<Seq<Op>, BlockchainError>(
            BlockchainError::InvalidTransactionNonce,
        ),
{
    reveal(tx_ops_given);
}

/// A signed regular send with the right nonce that its sender cannot pay
/// is refused for that.
pub proof fn lemma_balance_refused(m: Store, tx: Transaction, amount: u64)
    requires
        signature_valid(tx),
        tx.data matches TransactionData::RegularSend { dst: _, amount: a } && a == amount,
        stored_account(m, tx.src) is Ok,
        tx.nonce == stored_account(m, tx.src).unwrap().nonce + 1,
        stored_account(m, tx.src).unwrap().balance < amount + tx.fee,
    ensures
        tx_ops(m, tx) == Err::<Seq<Op>, BlockchainError>(BlockchainError::BalanceInsufficient),
{
    reveal(tx_ops_given);
}

/// A signed transaction that is no regular send is refused, never passed
/// over.
pub proof fn lemma_other_kinds_refused(m: Store, tx: Transaction)
    requires
        signature_valid(tx),
        !(tx.data is RegularSend),
    ensures
        tx_ops(m, tx) == Err::<Seq<Op>, BlockchainError>(
            BlockchainError::TransactionNotSupported,
        ),
{
    reveal(tx_ops_given);
}

/// A body is refused with the error of its first transaction that does
/// not apply.
pub proof fn lemma_body_refused(
    m: Store,
    pending: Seq<Op>,
    body: Seq<Transaction>,
    k: int,
    e: BlockchainError,
)
    requires
        0 <= k < body.len(),
        body_pending(m, pending, body.take(k)) is Ok,
        tx_ops(apply_ops(m, body_pending(m, pending, body.take(k)).unwrap()), body[k]) == Err::<
            Seq<Op>,
            BlockchainError,
        >(e),
    ensures
        body_pending(m, pending, body) == Err::<Seq<Op>, BlockchainError>(e),
    decreases k,
{
    if k == 0 {
        assert(body.take(0) =~= Seq::<Transaction>::empty());
    } else {
        let front = body.take(k);
        assert(front[0] == body[0]);
        assert(front.drop_first() =~= body.drop_first().take(k - 1));
        let ops = tx_ops(apply_ops(m, pending), body[0]).unwrap();
        let next = absorb_all(pending, ops);
        assert(body.drop_first()[k - 1] == body[k]);
        lemma_body_refused(m, next, body.drop_first(), k - 1, e);
    }
}

/// A block whose header passes and whose body is refused is refused with
/// the error of the body, that is, of the transaction that did not apply.
pub proof fn lemma_block_refused_by_body(m: Store, block: BlockView, draft: bool, e: BlockchainError)
    requires
        stored_height(m) is Ok,
        header_checks(m, stored_height(m).unwrap(), block, draft) is Ok,
        body_pending(m, Seq::empty(), block.body) == Err::<Seq<Op>, BlockchainError>(e),
    ensures
        block_changes(m, block, draft) == Err::<Seq<Op>, BlockchainError>(e),
{
    reveal(block_changes);
}

/// What the header of a block on a chain that is not empty is refused
/// for, with the last block at hand: first for its target, unless it is a
/// draft, then for its number, then for its parent hash, then for its
/// Merkle root. A header that passes all of these is not refused.
pub proof fn lemma_header_refused(m: Store, block: BlockView, draft: bool)
    requires
        stored_height(m) is Ok,
        stored_height(m).unwrap() > 0,
        stored_block(m, (stored_height(m).unwrap() - 1) as u64) is Ok,
        target_checked(m, block, draft) is Ok,
    ensures
        header_checks(m, stored_height(m).unwrap(), block, draft) == link_checks(
            block.header,
            stored_height(m).unwrap(),
            header_digest(
                stored_block(m, (stored_height(m).unwrap() - 1) as u64).unwrap().header,
            ),
            body_root(block.body),
            target_checked(m, block, draft).unwrap(),
            draft,
        ),
        header_checks(m, stored_height(m).unwrap(), block, draft) matches Err(e)
            ==> block_changes(m, block, draft) == Err::<Seq<Op>, BlockchainError>(e),
{
    reveal(block_changes);
}

/// A draft that does not carry the height as its number is refused for
/// its number, whatever its proof of work, its parent hash and its Merkle
/// root are: no proof-of-work key is read for a draft before that.
pub proof fn lemma_draft_number_refused(m: Store, block: BlockView)
    requires
        stored_height(m) is Ok,
        stored_height(m).unwrap() > 0,
        stored_block(m, (stored_height(m).unwrap() - 1) as u64) is Ok,
        block.header.number != stored_height(m).unwrap(),
    ensures
        block_changes(m, block, true) == Err::<Seq<Op>, BlockchainError>(
            BlockchainError::InvalidBlockNumber,
        ),
{
    lemma_header_refused(m, block, true);
}

} // verus!
