//! What a block leaves in the store, and that rolling it back takes all of
//! it out again.

use vstd::prelude::*;
use crate::blockchain::accounts::{account_write, lemma_body_effect, writes_accounts};
use crate::blockchain::keys::{
    key_block,
    key_height,
    key_kind,
    key_merkle,
    key_power,
    key_rollback,
    lemma_key_kinds,
    lemma_keys_injective,
    lemma_keys_short,
};
use crate::blockchain::model::{
    tx_ops,
    tx_ops_given,
    block_changes,
    block_writes,
    body_pending,
    journaled_writes,
    rollback_changes,
    stored_height,
    stored_pow_key,
    stored_power,
};
use crate::blockchain::BlockchainError;
use crate::codec::{
    dec_ops,
    enc_block,
    enc_digests,
    enc_ops,
    enc_u64,
    lemma_ops_canonical,
    lemma_ops_roundtrip,
    lemma_u64_len,
    lemma_u64_roundtrip,
    op_ok,
    ops_valid,
};
use crate::db::{
    absorb_all,
    apply_ops,
    inverse_op,
    inverse_ops,
    last_write,
    lemma_apply_ops_lookup,
    lemma_apply_ops_push,
    lemma_last_write,
    lemma_store_ext,
    lookup,
    Op,
    Store,
};
use crate::merkle::tree_nodes;
use crate::types::blocks::body_leaves;
use crate::types::header::header_power;
use crate::types::{Address, BlockView, Transaction};

verus! {

/// The height of a chain whose height can be read.
pub open spec fn height_of(m: Store) -> u64 {
    stored_height(m).unwrap()
}

/// The account writes of a block that applies.
pub open spec fn pending_of(m: Store, block: BlockView) -> Seq<Op> {
    body_pending(m, Seq::empty(), block.body).unwrap()
}

/// The accumulated power through a block that applies.
pub open spec fn power_with(m: Store, block: BlockView) -> u64 {
    (stored_power(m).unwrap() + header_power(
        block.header,
        stored_pow_key(m, block.header.number).unwrap(),
    )) as u64
}

/// The writes of a block that its journal undoes.
pub open spec fn journaled_of(m: Store, block: BlockView) -> Seq<Op> {
    journaled_writes(height_of(m), pending_of(m, block), power_with(m, block))
}

/// The journal of a block that applies.
pub open spec fn journal_of(m: Store, block: BlockView) -> Seq<Op> {
    inverse_ops(m, journaled_of(m, block))
}

/// The parts of the batch of a block that applies.
pub proof fn lemma_block_parts(m: Store, block: BlockView, draft: bool)
    requires
        block_changes(m, block, draft) is Ok,
    ensures
        stored_height(m) is Ok,
        height_of(m) < u64::MAX,
        stored_power(m) is Ok,
        stored_pow_key(m, block.header.number) is Ok,
        body_pending(m, Seq::empty(), block.body) is Ok,
        writes_accounts(pending_of(m, block)),
        block_changes(m, block, draft).unwrap() == block_writes(
            m,
            height_of(m),
            pending_of(m, block),
            power_with(m, block),
            block,
        ),
{
    reveal(block_changes);
    lemma_body_effect(m, Seq::empty(), block.body, Seq::empty(), Address::Treasury);
}

/// What a read finds after a block: under the five keys of the block what
/// the block put there, under the key of an account what the
/// transactions left there, and under any other key what was there before.
pub proof fn lemma_block_store(m: Store, block: BlockView, draft: bool, k: Seq<u8>)
    requires
        block_changes(m, block, draft) is Ok,
    ensures
        lookup(apply_ops(m, block_changes(m, block, draft).unwrap()), k) == (if k == key_merkle(
            height_of(m),
        ) {
            Some(enc_digests(tree_nodes(body_leaves(block.body))))
        } else if k == key_block(height_of(m)) {
            Some(enc_block(block))
        } else if k == key_rollback(height_of(m)) {
            Some(enc_ops(journal_of(m, block)))
        } else if k == key_power(height_of(m)) {
            Some(enc_u64(power_with(m, block)))
        } else if k == key_height() {
            Some(enc_u64((height_of(m) + 1) as u64))
        } else {
            lookup(apply_ops(m, pending_of(m, block)), k)
        }),
        !(key_kind(k) is Account) ==> lookup(apply_ops(m, pending_of(m, block)), k) == lookup(m, k),
{
    lemma_block_parts(m, block, draft);
    let h = height_of(m);
    let pending = pending_of(m, block);
    let changes = block_changes(m, block, draft).unwrap();
    lemma_key_kinds(h, Address::Treasury);
    let n = pending.len() as int;
    let s1 = pending.push(changes[n]);
    let s2 = s1.push(changes[n + 1]);
    let s3 = s2.push(changes[n + 2]);
    let s4 = s3.push(changes[n + 3]);
    let s5 = s4.push(changes[n + 4]);
    assert(s5 =~= changes);
    lemma_apply_ops_push(m, pending, changes[n]);
    lemma_apply_ops_push(m, s1, changes[n + 1]);
    lemma_apply_ops_push(m, s2, changes[n + 2]);
    lemma_apply_ops_push(m, s3, changes[n + 3]);
    lemma_apply_ops_push(m, s4, changes[n + 4]);
    let base = lookup(apply_ops(m, pending), k);
    assert(lookup(apply_ops(m, s1), k) == if k == key_height() {
        Some(enc_u64((h + 1) as u64))
    } else {
        base
    });
    assert(lookup(apply_ops(m, s2), k) == if k == key_power(h) {
        Some(enc_u64(power_with(m, block)))
    } else {
        lookup(apply_ops(m, s1), k)
    });
    assert(lookup(apply_ops(m, s3), k) == if k == key_rollback(h) {
        Some(enc_ops(journal_of(m, block)))
    } else {
        lookup(apply_ops(m, s2), k)
    });
    assert(lookup(apply_ops(m, s4), k) == if k == key_block(h) {
        Some(enc_block(block))
    } else {
        lookup(apply_ops(m, s3), k)
    });
    assert(lookup(apply_ops(m, s5), k) == if k == key_merkle(h) {
        Some(enc_digests(tree_nodes(body_leaves(block.body))))
    } else {
        lookup(apply_ops(m, s4), k)
    });
    if !(key_kind(k) is Account) {
        lemma_apply_ops_lookup(m, pending, k);
        lemma_last_write(pending, k);
    }
}

/// The journal that is stored for the last block.
pub open spec fn last_journal(m: Store) -> Seq<Op> {
    dec_ops(m[key_rollback((height_of(m) - 1) as u64)]).unwrap()
}

/// The parts of the batch of a rollback that applies.
pub proof fn lemma_rollback_parts(m: Store)
    requires
        rollback_changes(m) is Ok,
    ensures
        stored_height(m) is Ok,
        height_of(m) > 0,
        m.contains_key(key_rollback((height_of(m) - 1) as u64)),
        dec_ops(m[key_rollback((height_of(m) - 1) as u64)]) is Some,
        ops_valid(last_journal(m)),
        rollback_changes(m).unwrap() == last_journal(m).push(
            Op::Remove(key_block((height_of(m) - 1) as u64)),
        ).push(Op::Remove(key_merkle((height_of(m) - 1) as u64))).push(
            Op::Remove(key_rollback((height_of(m) - 1) as u64)),
        ),
{
    lemma_ops_canonical(m[key_rollback((height_of(m) - 1) as u64)]);
}

/// What a read finds after a rollback: nothing under the three keys of
/// the block that was taken off; under a key that the journal writes, what
/// its last write to the key leaves; under any other key what was there.
pub proof fn lemma_rollback_store(m: Store, k: Seq<u8>)
    requires
        rollback_changes(m) is Ok,
    ensures
        lookup(apply_ops(m, rollback_changes(m).unwrap()), k) == (if k == key_rollback(
            (height_of(m) - 1) as u64,
        ) || k == key_merkle((height_of(m) - 1) as u64) || k == key_block(
            (height_of(m) - 1) as u64,
        ) {
            None
        } else {
            match last_write(last_journal(m), k) {
                Some(n) => last_journal(m)[n].leaves(),
                None => lookup(m, k),
            }
        }),
{
    lemma_rollback_parts(m);
    let last = (height_of(m) - 1) as u64;
    let journal = last_journal(m);
    let changes = rollback_changes(m).unwrap();
    let s1 = journal.push(Op::Remove(key_block(last)));
    let s2 = s1.push(Op::Remove(key_merkle(last)));
    let s3 = s2.push(Op::Remove(key_rollback(last)));
    assert(s3 == changes);
    lemma_apply_ops_push(m, journal, Op::Remove(key_block(last)));
    lemma_apply_ops_push(m, s1, Op::Remove(key_merkle(last)));
    lemma_apply_ops_push(m, s2, Op::Remove(key_rollback(last)));
    lemma_apply_ops_lookup(m, journal, k);
    assert(lookup(apply_ops(m, s1), k) == if k == key_block(last) {
        None
    } else {
        lookup(apply_ops(m, journal), k)
    });
    assert(lookup(apply_ops(m, s2), k) == if k == key_merkle(last) {
        None
    } else {
        lookup(apply_ops(m, s1), k)
    });
    assert(lookup(apply_ops(m, s3), k) == if k == key_rollback(last) {
        None
    } else {
        lookup(apply_ops(m, s2), k)
    });
}

/// Whether the values of a store under the keys that journals restore can
/// be counted in 64 bits.
pub open spec fn small_values(m: Store) -> bool {
    forall|k: Seq<u8>|
        #![trigger m.contains_key(k)]
        m.contains_key(k) && (key_kind(k) is Account || key_kind(k) is Height || key_kind(k)
            is Power) ==> m[k].len() <= u64::MAX
}

/// Whether a store holds no block, no Merkle tree, no journal and no
/// accumulated power at the height of its chain or above.
pub open spec fn tip_clean(m: Store) -> bool {
    &&& forall|i: u64| i >= height_of(m) ==> !m.contains_key(#[trigger] key_block(i))
    &&& forall|i: u64| i >= height_of(m) ==> !m.contains_key(#[trigger] key_merkle(i))
    &&& forall|i: u64| i >= height_of(m) ==> !m.contains_key(#[trigger] key_rollback(i))
    &&& forall|i: u64| i >= height_of(m) ==> !m.contains_key(#[trigger] key_power(i))
}

/// A store in which a block's journal will find its way back: the height
/// can be read, nothing is stored above the tip, and what journals
/// restore can be stored in a journal.
pub open spec fn tidy(m: Store) -> bool {
    &&& stored_height(m) is Ok
    &&& tip_clean(m)
    &&& small_values(m)
}

/// Whether the journal of a block can be counted in 64 bits: a block must
/// not have more than about nine million million million transactions.
pub open spec fn journal_fits(block: BlockView) -> bool {
    2 * block.body.len() + 2 <= u64::MAX
}

/// A pending batch that absorbs a batch grows by no more than that batch.
pub proof fn lemma_absorb_len(pending: Seq<Op>, ops: Seq<Op>)
    ensures
        absorb_all(pending, ops).len() <= pending.len() + ops.len(),
    decreases ops.len(),
{
    if ops.len() > 0 {
        lemma_absorb_len(pending, ops.drop_last());
        lemma_last_write(absorb_all(pending, ops.drop_last()), ops.last().key());
    }
}

/// The transactions of a body leave no more than two writes each.
pub proof fn lemma_pending_len(m: Store, pending: Seq<Op>, body: Seq<Transaction>)
    requires
        body_pending(m, pending, body) is Ok,
    ensures
        body_pending(m, pending, body).unwrap().len() <= pending.len() + 2 * body.len(),
    decreases body.len(),
{
    if body.len() > 0 {
        reveal(tx_ops_given);
        let ops = tx_ops(apply_ops(m, pending), body[0]).unwrap();
        lemma_absorb_len(pending, ops);
        lemma_pending_len(m, absorb_all(pending, ops), body.drop_first());
    }
}

/// In a tidy store the journal of a block that fits can be stored and
/// read back.
pub proof fn lemma_journal_valid(m: Store, block: BlockView, draft: bool)
    requires
        block_changes(m, block, draft) is Ok,
        small_values(m),
        journal_fits(block),
    ensures
        ops_valid(journal_of(m, block)),
        dec_ops(enc_ops(journal_of(m, block))) == Some(journal_of(m, block)),
{
    lemma_block_parts(m, block, draft);
    lemma_pending_len(m, Seq::empty(), block.body);
    let h = height_of(m);
    let pending = pending_of(m, block);
    let journaled = journaled_of(m, block);
    let journal = journal_of(m, block);
    lemma_key_kinds(h, Address::Treasury);
    lemma_keys_short(h, Address::Treasury);
    assert forall|i: int| 0 <= i < journal.len() implies op_ok()(#[trigger] journal[i]) by {
        let k = journaled[i].key();
        assert(journal[i] == inverse_op(m, k));
        if i < pending.len() {
            assert(journaled[i] == pending[i]);
            assert(account_write(pending[i]));
        }
    }
    lemma_ops_roundtrip(journal);
}

/// Rolling back a block that was just put on the chain gives the store
/// back as it was before the block, key for key and byte for byte.
pub proof fn lemma_rollback_undoes_block(m: Store, block: BlockView, draft: bool)
    requires
        tidy(m),
        journal_fits(block),
        block_changes(m, block, draft) is Ok,
    ensures
        rollback_changes(apply_ops(m, block_changes(m, block, draft).unwrap())) is Ok,
        apply_ops(
            apply_ops(m, block_changes(m, block, draft).unwrap()),
            rollback_changes(apply_ops(m, block_changes(m, block, draft).unwrap())).unwrap(),
        ) == m,
{
    let h = height_of(m);
    let with_block = apply_ops(m, block_changes(m, block, draft).unwrap());
    let journaled = journaled_of(m, block);
    let journal = journal_of(m, block);
    let pending = pending_of(m, block);
    lemma_block_parts(m, block, draft);
    lemma_journal_valid(m, block, draft);
    lemma_key_kinds(h, Address::Treasury);
    lemma_block_store(m, block, draft, key_height());
    lemma_block_store(m, block, draft, key_rollback(h));
    lemma_u64_roundtrip((h + 1) as u64);
    assert(stored_height(with_block) == Ok::<u64, BlockchainError>((h + 1) as u64));
    assert(last_journal(with_block) == journal);
    assert(rollback_changes(with_block) is Ok);
    let back = apply_ops(with_block, rollback_changes(with_block).unwrap());
    assert forall|k: Seq<u8>| lookup(back, k) == lookup(m, k) by {
        lemma_rollback_store(with_block, k);
        lemma_block_store(m, block, draft, k);
        if k == key_rollback(h) || k == key_merkle(h) || k == key_block(h) {
            assert(!m.contains_key(key_block(h)));
            assert(!m.contains_key(key_merkle(h)));
            assert(!m.contains_key(key_rollback(h)));
        } else {
            lemma_last_write(journal, k);
            lemma_last_write(journaled, k);
            match last_write(journal, k) {
                Some(n) => {
                    assert(journal[n] == inverse_op(m, journaled[n].key()));
                },
                None => {
                    assert(journaled[journaled.len() - 1].key() == key_power(h));
                    assert(journal[journal.len() - 1].key() == key_power(h));
                    assert(journaled[journaled.len() - 2].key() == key_height());
                    assert(journal[journal.len() - 2].key() == key_height());
                    lemma_apply_ops_lookup(m, pending, k);
                    lemma_last_write(pending, k);
                    match last_write(pending, k) {
                        Some(i) => {
                            assert(journaled[i] == pending[i]);
                            assert(journal[i].key() == k);
                        },
                        None => {},
                    }
                },
            }
        }
    }
    lemma_store_ext(back, m);
}

/// A block leaves a tidy store tidy, one block higher.
pub proof fn lemma_block_keeps_tidy(m: Store, block: BlockView, draft: bool)
    requires
        tidy(m),
        block_changes(m, block, draft) is Ok,
    ensures
        tidy(apply_ops(m, block_changes(m, block, draft).unwrap())),
        stored_height(apply_ops(m, block_changes(m, block, draft).unwrap())) == Ok::<
            u64,
            BlockchainError,
        >((height_of(m) + 1) as u64),
{
    let h = height_of(m);
    let with_block = apply_ops(m, block_changes(m, block, draft).unwrap());
    let pending = pending_of(m, block);
    lemma_block_parts(m, block, draft);
    lemma_block_store(m, block, draft, key_height());
    lemma_u64_roundtrip((h + 1) as u64);
    assert forall|i: u64| i >= height_of(with_block) implies !with_block.contains_key(
        #[trigger] key_block(i),
    ) by {
        lemma_key_kinds(i, Address::Treasury);
        lemma_key_kinds(h, Address::Treasury);
        lemma_keys_injective(i, h);
        lemma_block_store(m, block, draft, key_block(i));
        assert(!m.contains_key(key_block(i)));
    }
    assert forall|i: u64| i >= height_of(with_block) implies !with_block.contains_key(
        #[trigger] key_merkle(i),
    ) by {
        lemma_key_kinds(i, Address::Treasury);
        lemma_key_kinds(h, Address::Treasury);
        lemma_keys_injective(i, h);
        lemma_block_store(m, block, draft, key_merkle(i));
        assert(!m.contains_key(key_merkle(i)));
    }
    assert forall|i: u64| i >= height_of(with_block) implies !with_block.contains_key(
        #[trigger] key_rollback(i),
    ) by {
        lemma_key_kinds(i, Address::Treasury);
        lemma_key_kinds(h, Address::Treasury);
        lemma_keys_injective(i, h);
        lemma_block_store(m, block, draft, key_rollback(i));
        assert(!m.contains_key(key_rollback(i)));
    }
    assert forall|i: u64| i >= height_of(with_block) implies !with_block.contains_key(
        #[trigger] key_power(i),
    ) by {
        lemma_key_kinds(i, Address::Treasury);
        lemma_key_kinds(h, Address::Treasury);
        lemma_keys_injective(i, h);
        lemma_block_store(m, block, draft, key_power(i));
        assert(!m.contains_key(key_power(i)));
    }
    assert forall|k: Seq<u8>| #![trigger with_block.contains_key(k)]
        with_block.contains_key(k) && (key_kind(k) is Account || key_kind(k) is Height || key_kind(
            k,
        ) is Power) implies with_block[k].len() <= u64::MAX by {
        lemma_key_kinds(h, Address::Treasury);
        lemma_block_store(m, block, draft, k);
        lemma_u64_len((h + 1) as u64);
        lemma_u64_len(power_with(m, block));
        if k != key_power(h) && k != key_height() {
            if key_kind(k) is Account {
                lemma_apply_ops_lookup(m, pending, k);
                lemma_last_write(pending, k);
                match last_write(pending, k) {
                    Some(n) => {
                        assert(account_write(pending[n]));
                    },
                    None => {
                        assert(m.contains_key(k));
                    },
                }
            } else {
                assert(m.contains_key(k));
            }
        }
    }
}

/// The store after a run of blocks, each applied as a draft or in full.
pub open spec fn after_blocks(m: Store, blocks: Seq<(BlockView, bool)>) -> Result<
    Store,
    BlockchainError,
>
    decreases blocks.len(),
{
    if blocks.len() == 0 {
        Ok(m)
    } else {
        match block_changes(m, blocks[0].0, blocks[0].1) {
            Err(e) => Err(e),
            Ok(changes) => after_blocks(apply_ops(m, changes), blocks.drop_first()),
        }
    }
}

/// The store after `n` rollbacks.
pub open spec fn after_rollbacks(m: Store, n: nat) -> Result<Store, BlockchainError>
    decreases n,
{
    if n == 0 {
        Ok(m)
    } else {
        match rollback_changes(m) {
            Err(e) => Err(e),
            Ok(changes) => after_rollbacks(apply_ops(m, changes), (n - 1) as nat),
        }
    }
}

/// The journal brings the store back: after any run of blocks put on a
/// tidy store, as many rollbacks give the store as it was before the run,
/// key for key and byte for byte. Rolling back fewer blocks gives the
/// store as it was at that height, by the same law from there on.
pub proof fn lemma_rollbacks_undo_blocks(m: Store, blocks: Seq<(BlockView, bool)>)
    requires
        tidy(m),
        forall|i: int| 0 <= i < blocks.len() ==> journal_fits((#[trigger] blocks[i]).0),
        after_blocks(m, blocks) is Ok,
    ensures
        after_rollbacks(after_blocks(m, blocks).unwrap(), blocks.len()) == Ok::<
            Store,
            BlockchainError,
        >(m),
    decreases blocks.len(),
{
    if blocks.len() > 0 {
        let block = blocks[0].0;
        let draft = blocks[0].1;
        let rest = blocks.drop_first();
        let next = apply_ops(m, block_changes(m, block, draft).unwrap());
        lemma_block_keeps_tidy(m, block, draft);
        assert forall|i: int| 0 <= i < rest.len() implies journal_fits((#[trigger] rest[i]).0) by {
            assert(rest[i] == blocks[i + 1]);
        }
        lemma_rollbacks_undo_blocks(next, rest);
        lemma_rollback_undoes_block(m, block, draft);
        let end = after_blocks(m, blocks).unwrap();
        assert(after_blocks(m, blocks) == after_blocks(next, rest));
        lemma_rollbacks_split(end, rest.len(), 1);
        let back = apply_ops(next, rollback_changes(next).unwrap());
        assert(after_rollbacks(back, 0) == Ok::<Store, BlockchainError>(back));
        assert(after_rollbacks(next, 1) == after_rollbacks(back, 0));
        assert(blocks.len() == rest.len() + 1);
    }
}

/// Rollbacks one after the other are rollbacks in two runs.
pub proof fn lemma_rollbacks_split(m: Store, a: nat, b: nat)
    ensures
        after_rollbacks(m, a + b) == (match after_rollbacks(m, a) {
            Ok(mid) => after_rollbacks(mid, b),
            Err(e) => Err(e),
        }),
    decreases a,
{
    if a > 0 {
        match rollback_changes(m) {
            Ok(changes) => {
                lemma_rollbacks_split(apply_ops(m, changes), (a - 1) as nat, b);
                assert(after_rollbacks(m, a + b) == after_rollbacks(
                    apply_ops(m, changes),
                    (a + b - 1) as nat,
                ));
            },
            Err(_) => {},
        }
    }
}

} // verus!
