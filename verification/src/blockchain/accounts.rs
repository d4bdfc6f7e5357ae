//! What transactions and blocks do to accounts: whose balance and nonce
//! change, and by how much.

use vstd::prelude::*;
use crate::blockchain::keys::{key_account, key_kind, lemma_account_key_injective, lemma_key_kinds};
use crate::blockchain::model::{
    block_changes,
    body_pending,
    stored_account,
    stored_height,
    tx_ops,
    tx_ops_given,
};
use crate::blockchain::BlockchainError;
use crate::blockchain::journal::after_blocks;
use crate::codec::{enc_account, lemma_account_roundtrip, lemma_u32_len, lemma_u64_len};
use crate::config::TOTAL_SUPPLY;
use crate::crypto::hex_text;
use crate::db::{
    lemma_apply_ops_push,
    lemma_last_write,
    absorb_all,
    apply_ops,
    lemma_absorb_all,
    lemma_apply_ops_lookup,
    lemma_last_write_is,
    lemma_last_write_none,
    lookup,
    Op,
    Store,
};
use crate::types::{Account, Address, BlockView, Transaction, TransactionData};

verus! {

/// Whom a transaction pays: the receiver of a regular send, and the sender
/// itself for any other transaction.
pub open spec fn receiver(tx: Transaction) -> Address {
    match tx.data {
        TransactionData::RegularSend { dst, amount } => dst,
        _ => tx.src,
    }
}

/// What a transaction sends, apart from the fee.
pub open spec fn amount_sent(tx: Transaction) -> int {
    match tx.data {
        TransactionData::RegularSend { dst, amount } => amount as int,
        _ => 0,
    }
}

/// The account of `a` after a transaction that applies, told from the
/// accounts before it.
pub open spec fn account_after(m: Store, tx: Transaction, a: Address) -> Result<
    Account,
    BlockchainError,
> {
    let dst = receiver(tx);
    if a == tx.src {
        let s = stored_account(m, tx.src).unwrap();
        Ok(
            Account {
                balance: (s.balance - tx.fee - (if dst == tx.src {
                    0
                } else {
                    amount_sent(tx)
                })) as u64,
                nonce: (s.nonce + 1) as u32,
            },
        )
    } else if a == dst {
        let d = stored_account(m, dst).unwrap();
        Ok(Account { balance: (d.balance + amount_sent(tx)) as u64, nonce: d.nonce })
    } else {
        stored_account(m, a)
    }
}

/// When a transaction applies, and what it then does to every account: the
/// sender pays the amount and the fee and its nonce goes up by one, the
/// receiver gets the amount, and every other account stays as it is. A
/// transaction applies only if it is a regular send whose nonce follows
/// the sender's and which the sender can pay.
pub proof fn lemma_tx_effect(m: Store, tx: Transaction, a: Address)
    requires
        tx_ops(m, tx) is Ok,
    ensures
        tx.data is RegularSend,
        stored_account(m, tx.src) is Ok,
        stored_account(m, receiver(tx)) is Ok,
        tx.nonce == stored_account(m, tx.src).unwrap().nonce + 1,
        stored_account(m, tx.src).unwrap().balance >= amount_sent(tx) + tx.fee,
        receiver(tx) != tx.src ==> stored_account(m, receiver(tx)).unwrap().balance + amount_sent(
            tx,
        ) <= u64::MAX,
        stored_account(apply_ops(m, tx_ops(m, tx).unwrap()), a) == account_after(m, tx, a),
{
    reveal(tx_ops_given);
    let ops = tx_ops(m, tx).unwrap();
    let dst = receiver(tx);
    let s = stored_account(m, tx.src).unwrap();
    let k = key_account(a);
    lemma_apply_ops_lookup(m, ops, k);
    if k == key_account(tx.src) {
        lemma_account_key_injective(a, tx.src);
    }
    if k == key_account(dst) {
        lemma_account_key_injective(a, dst);
    }
    if key_account(dst) == key_account(tx.src) {
        lemma_account_key_injective(dst, tx.src);
    }
    if dst == tx.src {
        let after = Account { balance: (s.balance - tx.fee) as u64, nonce: tx.nonce };
        lemma_account_roundtrip(after);
        assert(ops == seq![Op::Put(key_account(tx.src), enc_account(after))]);
        if a == tx.src {
            lemma_last_write_is(ops, k, 0);
        } else {
            lemma_last_write_none(ops, k);
        }
    } else {
        let d = stored_account(m, dst).unwrap();
        let credited = Account { balance: (d.balance + amount_sent(tx)) as u64, nonce: d.nonce };
        let after = Account {
            balance: (s.balance - amount_sent(tx) - tx.fee) as u64,
            nonce: tx.nonce,
        };
        lemma_account_roundtrip(after);
        lemma_account_roundtrip(credited);
        assert(ops == seq![
            Op::Put(key_account(dst), enc_account(credited)),
            Op::Put(key_account(tx.src), enc_account(after)),
        ]);
        if a == tx.src {
            lemma_last_write_is(ops, k, 1);
        } else if a == dst {
            lemma_last_write_is(ops, k, 0);
        } else {
            lemma_last_write_none(ops, k);
        }
    }
}

/// Every write of a transaction is to an account.
pub proof fn lemma_tx_writes_accounts(m: Store, tx: Transaction)
    requires
        tx_ops(m, tx) is Ok,
    ensures
        writes_accounts(tx_ops(m, tx).unwrap()),
{
    reveal(tx_ops_given);
    lemma_key_kinds(0, tx.src);
    lemma_key_kinds(0, receiver(tx));
    lemma_account_key_len(tx.src);
    lemma_account_key_len(receiver(tx));
    let ops = tx_ops(m, tx).unwrap();
    assert forall|i: int| 0 <= i < ops.len() implies account_write(#[trigger] ops[i]) by {
        match ops[i] {
            Op::Put(k, v) => {
                assert(exists|a: Account| v == enc_account(a));
                let a = choose|a: Account| v == enc_account(a);
                lemma_u64_len(a.balance);
                lemma_u32_len(a.nonce);
            },
            Op::Remove(_) => {},
        }
    }
}

/// The key of an account has 16 or 72 bytes.
pub proof fn lemma_account_key_len(a: Address)
    ensures
        key_account(a).len() <= 72,
{
    match a {
        Address::Treasury => {},
        Address::PublicKey(pk) => {
            assert(hex_text(pk@).len() == 64);
        },
    }
}

/// Whether every write of a batch is a `Put` to the key of an account.
pub open spec fn writes_accounts(ops: Seq<Op>) -> bool {
    forall|i: int| 0 <= i < ops.len() ==> account_write(#[trigger] ops[i])
}

/// Whether a write puts an encoded account under a key of the kind and
/// size of an account's.
pub open spec fn account_write(op: Op) -> bool {
    match op {
        Op::Put(k, v) => key_kind(k) is Account && k.len() <= 72 && v.len() == 12,
        Op::Remove(_) => false,
    }
}

/// The balance of an address, and 0 where its account cannot be read.
pub open spec fn balance_at(m: Store, a: Address) -> int {
    match stored_account(m, a) {
        Ok(acc) => acc.balance as int,
        Err(_) => 0,
    }
}

/// The nonce of an address, and 0 where its account cannot be read.
pub open spec fn nonce_at(m: Store, a: Address) -> int {
    match stored_account(m, a) {
        Ok(acc) => acc.nonce as int,
        Err(_) => 0,
    }
}

/// The sum of the balances of a list of addresses.
pub open spec fn total_balance(m: Store, addrs: Seq<Address>) -> int
    decreases addrs.len(),
{
    if addrs.len() == 0 {
        0
    } else {
        total_balance(m, addrs.drop_last()) + balance_at(m, addrs.last())
    }
}

/// The nonce of the sender of a transaction that applies goes up by
/// exactly one, and no other nonce changes.
pub proof fn lemma_tx_nonces(m: Store, tx: Transaction, a: Address)
    requires
        tx_ops(m, tx) is Ok,
    ensures
        nonce_at(apply_ops(m, tx_ops(m, tx).unwrap()), a) == nonce_at(m, a) + (if a == tx.src {
            1int
        } else {
            0int
        }),
{
    lemma_tx_effect(m, tx, a);
}

/// What a transaction that applies does to the sum of the balances of a
/// list of distinct addresses: the sender's share goes down by the amount
/// and the fee, the receiver's goes up by the amount.
pub proof fn lemma_tx_total(m: Store, tx: Transaction, addrs: Seq<Address>)
    requires
        tx_ops(m, tx) is Ok,
        addrs.no_duplicates(),
    ensures
        total_balance(apply_ops(m, tx_ops(m, tx).unwrap()), addrs) == total_balance(m, addrs) - (
        if addrs.contains(tx.src) {
            tx.fee + amount_sent(tx)
        } else {
            0
        }) + (if addrs.contains(receiver(tx)) {
            amount_sent(tx)
        } else {
            0
        }),
    decreases addrs.len(),
{
    if addrs.len() > 0 {
        let front = addrs.drop_last();
        let a = addrs.last();
        assert(front.no_duplicates()) by {
            assert forall|i: int, j: int| 0 <= i < front.len() && 0 <= j < front.len() && i
                != j implies front[i] != front[j] by {
                assert(front[i] == addrs[i] && front[j] == addrs[j]);
            }
        }
        lemma_tx_total(m, tx, front);
        lemma_tx_effect(m, tx, a);
        assert(!front.contains(a)) by {
            if front.contains(a) {
                let i = choose|i: int| 0 <= i < front.len() && front[i] == a;
                assert(addrs[i] == a && addrs[addrs.len() - 1] == a);
            }
        }
        assert forall|x: Address| addrs.contains(x) <==> (front.contains(x) || x == a) by {
            if addrs.contains(x) {
                let i = choose|i: int| 0 <= i < addrs.len() && addrs[i] == x;
                if i < front.len() {
                    assert(front[i] == x);
                }
            }
            if front.contains(x) {
                let i = choose|i: int| 0 <= i < front.len() && front[i] == x;
                assert(addrs[i] == x);
            }
            if x == a {
                assert(addrs[addrs.len() - 1] == x);
            }
        }
    }
}

/// Conservation of money by a transaction: over any list of distinct
/// addresses that holds the sender and the receiver, the sum of the
/// balances goes down by the fee and by nothing else. With no fee it stays
/// as it is.
pub proof fn lemma_tx_conserves(m: Store, tx: Transaction, addrs: Seq<Address>)
    requires
        tx_ops(m, tx) is Ok,
        addrs.no_duplicates(),
        addrs.contains(tx.src),
        addrs.contains(receiver(tx)),
    ensures
        total_balance(apply_ops(m, tx_ops(m, tx).unwrap()), addrs) == total_balance(m, addrs)
            - tx.fee,
{
    lemma_tx_total(m, tx, addrs);
}

/// The fees of a run of transactions, added up.
pub open spec fn fees(body: Seq<Transaction>) -> int
    decreases body.len(),
{
    if body.len() == 0 {
        0
    } else {
        body[0].fee + fees(body.drop_first())
    }
}

/// How many transactions of a run have `a` as their sender.
pub open spec fn debits(body: Seq<Transaction>, a: Address) -> int
    decreases body.len(),
{
    if body.len() == 0 {
        0
    } else {
        (if body[0].src == a {
            1int
        } else {
            0int
        }) + debits(body.drop_first(), a)
    }
}

/// Whether a list of addresses holds the sender and the receiver of every
/// transaction of a run.
pub open spec fn holds_parties(addrs: Seq<Address>, body: Seq<Transaction>) -> bool {
    forall|i: int|
        0 <= i < body.len() ==> addrs.contains((#[trigger] body[i]).src) && addrs.contains(
            receiver(body[i]),
        )
}

/// A batch of account writes that absorbs account writes is one still.
pub proof fn lemma_absorb_accounts(pending: Seq<Op>, ops: Seq<Op>)
    requires
        writes_accounts(pending),
        writes_accounts(ops),
    ensures
        writes_accounts(absorb_all(pending, ops)),
    decreases ops.len(),
{
    if ops.len() > 0 {
        let front = ops.drop_last();
        assert forall|i: int| 0 <= i < front.len() implies account_write(#[trigger] front[i]) by {
            assert(front[i] == ops[i]);
        }
        lemma_absorb_accounts(pending, front);
        let sofar = absorb_all(pending, front);
        let op = ops.last();
        assert(op == ops[ops.len() - 1]);
        lemma_last_write(sofar, op.key());
    }
}

/// What a run of transactions that all apply does, one after the other on
/// an overlay: it writes accounts only, it takes the fees out of the sum of
/// the balances of the parties, and it raises the nonce of each address by
/// the number of transactions that the address sent.
pub proof fn lemma_body_effect(
    m: Store,
    pending: Seq<Op>,
    body: Seq<Transaction>,
    addrs: Seq<Address>,
    a: Address,
)
    requires
        body_pending(m, pending, body) is Ok,
        writes_accounts(pending),
    ensures
        writes_accounts(body_pending(m, pending, body).unwrap()),
        addrs.no_duplicates() && holds_parties(addrs, body) ==> total_balance(
            apply_ops(m, body_pending(m, pending, body).unwrap()),
            addrs,
        ) == total_balance(apply_ops(m, pending), addrs) - fees(body),
        nonce_at(apply_ops(m, body_pending(m, pending, body).unwrap()), a) == nonce_at(
            apply_ops(m, pending),
            a,
        ) + debits(body, a),
    decreases body.len(),
{
    if body.len() > 0 {
        let now = apply_ops(m, pending);
        let tx = body[0];
        let rest = body.drop_first();
        let ops = tx_ops(now, tx).unwrap();
        let next = absorb_all(pending, ops);
        lemma_absorb_all(m, pending, ops);
        lemma_tx_writes_accounts(now, tx);
        lemma_absorb_accounts(pending, ops);
        lemma_body_effect(m, next, rest, addrs, a);
        lemma_tx_nonces(now, tx, a);
        if addrs.no_duplicates() && holds_parties(addrs, body) {
            assert(holds_parties(addrs, rest)) by {
                assert forall|i: int| 0 <= i < rest.len() implies addrs.contains(
                    (#[trigger] rest[i]).src,
                ) && addrs.contains(receiver(rest[i])) by {
                    assert(rest[i] == body[i + 1]);
                }
            }
            assert(addrs.contains(body[0].src) && addrs.contains(receiver(body[0])));
            lemma_tx_conserves(now, tx, addrs);
        }
    }
}

/// The accounts after a block are those after its transactions: the other
/// writes of a block touch no account.
pub proof fn lemma_block_accounts(m: Store, block: BlockView, draft: bool, a: Address)
    requires
        block_changes(m, block, draft) is Ok,
    ensures
        body_pending(m, Seq::empty(), block.body) is Ok,
        stored_account(apply_ops(m, block_changes(m, block, draft).unwrap()), a) == stored_account(
            apply_ops(m, body_pending(m, Seq::empty(), block.body).unwrap()),
            a,
        ),
{
    reveal(block_changes);
    let h = stored_height(m).unwrap();
    let pending = body_pending(m, Seq::empty(), block.body).unwrap();
    let changes = block_changes(m, block, draft).unwrap();
    let k = key_account(a);
    lemma_key_kinds(h, a);
    let n = pending.len() as int;
    let s1 = pending.push(changes[n]);
    let s2 = s1.push(changes[n + 1]);
    let s3 = s2.push(changes[n + 2]);
    let s4 = s3.push(changes[n + 3]);
    let s5 = s4.push(changes[n + 4]);
    assert(s5 =~= changes);
    lemma_apply_ops_push(m, pending, changes[n]);
    lemma_apply_ops_push(m, s1, changes[n + 1]);
    lemma_apply_ops_push(m, s2, changes[n + 2]);
    lemma_apply_ops_push(m, s3, changes[n + 3]);
    lemma_apply_ops_push(m, s4, changes[n + 4]);
    assert(lookup(apply_ops(m, s1), k) == lookup(apply_ops(m, pending), k));
    assert(lookup(apply_ops(m, s2), k) == lookup(apply_ops(m, pending), k));
    assert(lookup(apply_ops(m, s3), k) == lookup(apply_ops(m, pending), k));
    assert(lookup(apply_ops(m, s4), k) == lookup(apply_ops(m, pending), k));
    assert(lookup(apply_ops(m, s5), k) == lookup(apply_ops(m, pending), k));
}

/// The sum of the balances over a list of addresses depends on the
/// accounts of these addresses alone.
pub proof fn lemma_total_same(m1: Store, m2: Store, addrs: Seq<Address>)
    requires
        forall|a: Address| stored_account(m1, a) == stored_account(m2, a),
    ensures
        total_balance(m1, addrs) == total_balance(m2, addrs),
    decreases addrs.len(),
{
    if addrs.len() > 0 {
        lemma_total_same(m1, m2, addrs.drop_last());
    }
}

/// Conservation of money by a block: over any list of distinct addresses
/// that holds the senders and receivers of its transactions, the sum of
/// the balances goes down by the fees of the block and by nothing else. A
/// block without fees leaves the sum as it is.
pub proof fn lemma_block_conserves(m: Store, block: BlockView, draft: bool, addrs: Seq<Address>)
    requires
        block_changes(m, block, draft) is Ok,
        addrs.no_duplicates(),
        holds_parties(addrs, block.body),
    ensures
        total_balance(apply_ops(m, block_changes(m, block, draft).unwrap()), addrs)
            == total_balance(m, addrs) - fees(block.body),
{
    let after = apply_ops(m, block_changes(m, block, draft).unwrap());
    lemma_block_accounts(m, block, draft, Address::Treasury);
    let pending = body_pending(m, Seq::empty(), block.body).unwrap();
    assert forall|a: Address| stored_account(after, a) == stored_account(
        apply_ops(m, pending),
        a,
    ) by {
        lemma_block_accounts(m, block, draft, a);
    }
    lemma_total_same(after, apply_ops(m, pending), addrs);
    lemma_body_effect(m, Seq::empty(), block.body, addrs, Address::Treasury);
}

/// Nonces under a block: the nonce of every address goes up by the number
/// of transactions of the block that the address sent, so it never goes
/// down, and it goes up by exactly one for each debit.
pub proof fn lemma_block_nonces(m: Store, block: BlockView, draft: bool, a: Address)
    requires
        block_changes(m, block, draft) is Ok,
    ensures
        nonce_at(apply_ops(m, block_changes(m, block, draft).unwrap()), a) == nonce_at(m, a)
            + debits(block.body, a),
        debits(block.body, a) >= 0,
{
    lemma_block_accounts(m, block, draft, a);
    lemma_body_effect(m, Seq::empty(), block.body, Seq::empty(), a);
    lemma_debits_count(block.body, a);
}

/// A count of debits is not negative.
pub proof fn lemma_debits_count(body: Seq<Transaction>, a: Address)
    ensures
        debits(body, a) >= 0,
    decreases body.len(),
{
    if body.len() > 0 {
        lemma_debits_count(body.drop_first(), a);
    }
}

/// The fees of a run of blocks, added up.
pub open spec fn run_fees(blocks: Seq<(BlockView, bool)>) -> int
    decreases blocks.len(),
{
    if blocks.len() == 0 {
        0
    } else {
        fees(blocks[0].0.body) + run_fees(blocks.drop_first())
    }
}

/// Whether a list of addresses holds the senders and receivers of all
/// transactions of a run of blocks.
pub open spec fn holds_all_parties(addrs: Seq<Address>, blocks: Seq<(BlockView, bool)>) -> bool {
    forall|i: int| 0 <= i < blocks.len() ==> holds_parties(addrs, (#[trigger] blocks[i]).0.body)
}

/// Conservation of money over a run of blocks: over any list of distinct
/// addresses that holds all senders and receivers, the sum of the balances
/// after the run is the sum before it less the fees. Without fees every
/// state that is committed on the way holds the same sum.
pub proof fn lemma_run_conserves(m: Store, blocks: Seq<(BlockView, bool)>, addrs: Seq<Address>)
    requires
        after_blocks(m, blocks) is Ok,
        addrs.no_duplicates(),
        holds_all_parties(addrs, blocks),
    ensures
        total_balance(after_blocks(m, blocks).unwrap(), addrs)
            == total_balance(m, addrs) - run_fees(blocks),
    decreases blocks.len(),
{
    if blocks.len() > 0 {
        let block = blocks[0].0;
        let draft = blocks[0].1;
        let rest = blocks.drop_first();
        let next = apply_ops(m, block_changes(m, block, draft).unwrap());
        assert(holds_parties(addrs, blocks[0].0.body));
        lemma_block_conserves(m, block, draft, addrs);
        assert forall|i: int| 0 <= i < rest.len() implies holds_parties(
            addrs,
            (#[trigger] rest[i]).0.body,
        ) by {
            assert(rest[i] == blocks[i + 1]);
        }
        lemma_run_conserves(next, rest, addrs);
    }
}

/// Where no account is stored, the balances of a list of distinct
/// addresses add up to the whole supply if the treasury is among them,
/// and to nothing if it is not.
pub proof fn lemma_initial_total(m: Store, addrs: Seq<Address>)
    requires
        addrs.no_duplicates(),
        forall|a: Address| !m.contains_key(#[trigger] key_account(a)),
    ensures
        total_balance(m, addrs) == (if addrs.contains(Address::Treasury) {
            TOTAL_SUPPLY as int
        } else {
            0
        }),
    decreases addrs.len(),
{
    if addrs.len() > 0 {
        let front = addrs.drop_last();
        let a = addrs.last();
        assert(front.no_duplicates()) by {
            assert forall|i: int, j: int| 0 <= i < front.len() && 0 <= j < front.len() && i
                != j implies front[i] != front[j] by {
                assert(front[i] == addrs[i] && front[j] == addrs[j]);
            }
        }
        lemma_initial_total(m, front);
        assert(!m.contains_key(key_account(a)));
        if front.contains(Address::Treasury) {
            let i = choose|i: int| 0 <= i < front.len() && front[i] == Address::Treasury;
            assert(addrs[i] == Address::Treasury);
            assert(addrs[addrs.len() - 1] == a);
        } else if addrs.contains(Address::Treasury) {
            let i = choose|i: int| 0 <= i < addrs.len() && addrs[i] == Address::Treasury;
            if i < front.len() {
                assert(front[i] == Address::Treasury);
            }
        }
        if a == Address::Treasury {
            assert(addrs[addrs.len() - 1] == Address::Treasury);
        }
    }
}

/// What is read as an account is what is stored, and nothing is made up:
/// an account that is stored encodes back to the very bytes that are
/// stored for it, and an address for which nothing is stored has the
/// account that every address starts with.
pub proof fn lemma_account_read_back(m: Store, addr: Address)
    ensures
        match stored_account(m, addr) {
            Ok(a) => if m.contains_key(key_account(addr)) {
                enc_account(a) == m[key_account(addr)]
            } else {
                a == crate::blockchain::model::initial_account(addr)
            },
            Err(e) => m.contains_key(key_account(addr)) && e
                == crate::blockchain::model::corrupted(),
        },
{
    if m.contains_key(key_account(addr)) {
        crate::codec::lemma_account_canonical(m[key_account(addr)]);
    }
}

} // verus!
