//! What holds of every chain that was made by putting blocks on an empty
//! store and taking blocks off again: each block is linked to the one
//! before it, and each journal undoes its own block and nothing else.

use vstd::prelude::*;
use crate::blockchain::journal::{
    height_of,
    journal_fits,
    journal_of,
    journaled_of,
    last_journal,
    lemma_block_keeps_tidy,
    lemma_block_parts,
    lemma_block_store,
    lemma_journal_valid,
    lemma_rollback_parts,
    lemma_rollback_store,
    pending_of,
    power_with,
    small_values,
    tidy,
};
use crate::blockchain::keys::{
    key_account,
    key_block,
    key_height,
    key_kind,
    key_merkle,
    key_power,
    key_rollback,
    lemma_key_kinds,
    lemma_keys_injective,
};
use crate::blockchain::model::{
    start_changes,
    block_changes,
    block_entry,
    pow_key_reference,
    power_entry,
    rollback_changes,
    stored_height,
};
use crate::blockchain::BlockchainError;
use crate::codec::{
    block_valid,
    dec_ops,
    dec_u64,
    lemma_block_roundtrip,
    lemma_u64_roundtrip,
    op_ok,
};
use crate::db::{
    apply_ops,
    inverse_op,
    last_write,
    lemma_last_write,
    lemma_last_write_is,
    lookup,
    Op,
    Store,
};
use crate::types::blocks::body_root;
use crate::blockchain::accounts::account_write;
use crate::config::genesis::genesis_block;
use crate::config::pow_base_key;
use crate::types::header::{header_digest, header_power, lemma_work_monotone, pow_digest};
use crate::types::{Address, BlockView};

verus! {

/// The journal that is stored for the block at `i`.
pub open spec fn journal_at(m: Store, i: u64) -> Option<Seq<Op>> {
    match lookup(m, key_rollback(i)) {
        Some(bytes) => dec_ops(bytes),
        None => None,
    }
}

/// Whether running a journal leaves the height `i` stored.
pub open spec fn sets_height(journal: Seq<Op>, i: u64) -> bool {
    match last_write(journal, key_height()) {
        Some(n) => match journal[n].leaves() {
            None => i == 0,
            Some(bytes) => dec_u64(bytes) == Some(i),
        },
        None => false,
    }
}

/// Whether running a journal takes the accumulated power through the
/// block at `i` out of the store.
pub open spec fn clears_power(journal: Seq<Op>, i: u64) -> bool {
    match last_write(journal, key_power(i)) {
        Some(n) => journal[n].leaves() is None,
        None => false,
    }
}

/// Whether a journal is the journal of block `i` and of nothing else: it
/// writes the height, the power of block `i` and accounts only, it puts
/// the height back to `i`, and it takes the power of block `i` out.
pub open spec fn journal_sound(journal: Seq<Op>, i: u64) -> bool {
    &&& forall|n: int|
        0 <= n < journal.len() ==> {
            let k = (#[trigger] journal[n]).key();
            k == key_height() || key_kind(k) is Account || k == key_power(i)
        }
    &&& sets_height(journal, i)
    &&& clears_power(journal, i)
}

/// Whether every block of the chain has a sound journal.
pub open spec fn journals_sound(m: Store) -> bool {
    forall|i: u64|
        i < height_of(m) ==> (#[trigger] journal_at(m, i)) is Some && journal_sound(
            journal_at(m, i).unwrap(),
            i,
        )
}

/// Whether the block at `i` is there, carries its own number and the
/// Merkle root of its own body, and names the hash of the header before it
/// as its parent. The first block has no parent to name.
pub open spec fn linked_at(m: Store, i: u64) -> bool {
    &&& block_entry(m, i) is Ok
    &&& block_entry(m, i).unwrap().header.number == i
    &&& block_entry(m, i).unwrap().header.block_root == body_root(block_entry(m, i).unwrap().body)
    &&& i > 0 ==> block_entry(m, (i - 1) as u64) is Ok && block_entry(
        m,
        i,
    ).unwrap().header.parent_hash == header_digest(block_entry(m, (i - 1) as u64).unwrap().header)
}

/// Whether every block of the chain is linked.
pub open spec fn chain_linked(m: Store) -> bool {
    forall|i: u64| i < height_of(m) ==> #[trigger] linked_at(m, i)
}

/// The key under which the proof of work of the block at `i` was judged,
/// told from the blocks that are stored.
pub open spec fn key_at(m: Store, i: u64) -> Seq<u8> {
    if i < 64 {
        pow_base_key()
    } else {
        header_digest(block_entry(m, pow_key_reference(i)).unwrap().header)@
    }
}

/// The accumulated power through the block before the one at `i`.
pub open spec fn power_before(m: Store, i: u64) -> int {
    if i == 0 {
        0
    } else {
        power_entry(m, (i - 1) as u64).unwrap() as int
    }
}

/// Whether the accumulated power through the block at `i` is stored, and
/// is the power through the block before it and the power of the block
/// itself.
pub open spec fn powered_at(m: Store, i: u64) -> bool {
    &&& power_entry(m, i) is Ok
    &&& block_entry(m, i) is Ok
    &&& power_entry(m, i).unwrap() == power_before(m, i) + header_power(
        block_entry(m, i).unwrap().header,
        key_at(m, i),
    )
}

/// Whether the accumulated power through every block of the chain is
/// stored, and adds up block by block.
pub open spec fn powers_stored(m: Store) -> bool {
    forall|i: u64| i < height_of(m) ==> #[trigger] powered_at(m, i)
}

/// What holds of every chain: see the parts.
pub open spec fn sound(m: Store) -> bool {
    &&& tidy(m)
    &&& journals_sound(m)
    &&& chain_linked(m)
    &&& powers_stored(m)
}

/// A block that heads a chain as it should: numbered 0, with the Merkle
/// root of its own body.
pub open spec fn heads_chain(block: BlockView) -> bool {
    block.header.number == 0 && block.header.block_root == body_root(block.body)
}

/// What is stored for the heights below the tip stays as it is under a
/// block, and what is stored for the tip is the block, its power and its
/// journal.
pub proof fn lemma_block_entries(m: Store, block: BlockView, draft: bool, i: u64)
    requires
        block_changes(m, block, draft) is Ok,
        small_values(m),
        journal_fits(block),
    ensures
        block_entry(apply_ops(m, block_changes(m, block, draft).unwrap()), i) == (if i
            == height_of(m) {
            Ok(block)
        } else {
            block_entry(m, i)
        }),
        power_entry(apply_ops(m, block_changes(m, block, draft).unwrap()), i) == (if i
            == height_of(m) {
            Ok(power_with(m, block))
        } else {
            power_entry(m, i)
        }),
        journal_at(apply_ops(m, block_changes(m, block, draft).unwrap()), i) == (if i == height_of(
            m,
        ) {
            Some(journal_of(m, block))
        } else {
            journal_at(m, i)
        }),
{
    let h = height_of(m);
    lemma_block_parts(m, block, draft);
    lemma_key_kinds(i, Address::Treasury);
    lemma_key_kinds(h, Address::Treasury);
    if i != h {
        lemma_keys_injective(i, h);
    }
    lemma_block_store(m, block, draft, key_block(i));
    lemma_block_store(m, block, draft, key_power(i));
    lemma_block_store(m, block, draft, key_rollback(i));
    lemma_block_roundtrip(block);
    lemma_u64_roundtrip(power_with(m, block));
    lemma_journal_valid(m, block, draft);
}

/// The journal of a block on a tidy store is a sound journal for its
/// height.
pub proof fn lemma_journal_sound(m: Store, block: BlockView, draft: bool)
    requires
        block_changes(m, block, draft) is Ok,
        tidy(m),
    ensures
        journal_sound(journal_of(m, block), height_of(m)),
{
    let h = height_of(m);
    lemma_block_parts(m, block, draft);
    let pending = pending_of(m, block);
    let journaled = journaled_of(m, block);
    let journal = journal_of(m, block);
    lemma_key_kinds(h, Address::Treasury);
    assert forall|n: int| 0 <= n < journal.len() implies {
        let k = (#[trigger] journal[n]).key();
        k == key_height() || key_kind(k) is Account || k == key_power(h)
    } by {
        assert(journal[n] == inverse_op(m, journaled[n].key()));
        if n < pending.len() {
            assert(journaled[n] == pending[n]);
            assert(account_write(pending[n]));
        }
    }
    let at = journal.len() - 2;
    assert(journaled[at].key() == key_height());
    assert(journal[at] == inverse_op(m, key_height()));
    assert(journaled[at + 1].key() == key_power(h));
    assert(journal[at + 1] == inverse_op(m, journaled[at + 1].key()));
    lemma_last_write_is(journal, key_height(), at);
    assert(!m.contains_key(key_power(h)));
    lemma_last_write_is(journal, key_power(h), at + 1);
}

/// A block that fits leaves a sound chain sound. The first block of a
/// chain must head it as it should.
pub proof fn lemma_block_keeps_sound(m: Store, block: BlockView, draft: bool)
    requires
        sound(m),
        journal_fits(block),
        block_changes(m, block, draft) is Ok,
        height_of(m) == 0 ==> heads_chain(block),
    ensures
        sound(apply_ops(m, block_changes(m, block, draft).unwrap())),
        height_of(apply_ops(m, block_changes(m, block, draft).unwrap())) == height_of(m) + 1,
{
    reveal(block_changes);
    let h = height_of(m);
    let with_block = apply_ops(m, block_changes(m, block, draft).unwrap());
    lemma_block_keeps_tidy(m, block, draft);
    lemma_journal_sound(m, block, draft);
    assert forall|i: u64| i < height_of(with_block) implies (#[trigger] journal_at(with_block, i))
        is Some && journal_sound(journal_at(with_block, i).unwrap(), i) by {
        lemma_block_entries(m, block, draft, i);
        if i < h {
            assert(journal_at(m, i) is Some);
        }
    }
    assert forall|i: u64| i < height_of(with_block) implies #[trigger] powered_at(with_block, i) by {
        lemma_block_entries(m, block, draft, i);
        if i > 0 {
            lemma_block_entries(m, block, draft, (i - 1) as u64);
        }
        if i >= 64 {
            lemma_block_entries(m, block, draft, pow_key_reference(i));
        }
        if i < h {
            assert(powered_at(m, i));
        } else {
            if h > 0 {
                assert(powered_at(m, (h - 1) as u64));
                assert(linked_at(m, (h - 1) as u64));
            }
            if h >= 64 {
                assert(linked_at(m, pow_key_reference(h)));
            }
        }
    }
    assert forall|i: u64| i < height_of(with_block) implies #[trigger] linked_at(with_block, i) by {
        lemma_block_entries(m, block, draft, i);
        if i > 0 {
            lemma_block_entries(m, block, draft, (i - 1) as u64);
        }
        if i < h {
            assert(linked_at(m, i));
        } else if h > 0 {
            assert(linked_at(m, (h - 1) as u64));
        }
    }
}

/// What is stored for the heights below the last block stays as it is
/// under a rollback with a sound journal, and the height goes down by one.
pub proof fn lemma_rollback_entries(m: Store, i: u64)
    requires
        rollback_changes(m) is Ok,
        journal_sound(last_journal(m), (height_of(m) - 1) as u64),
        i < height_of(m) - 1,
    ensures
        stored_height(apply_ops(m, rollback_changes(m).unwrap())) == Ok::<u64, BlockchainError>(
            (height_of(m) - 1) as u64,
        ),
        block_entry(apply_ops(m, rollback_changes(m).unwrap()), i) == block_entry(m, i),
        power_entry(apply_ops(m, rollback_changes(m).unwrap()), i) == power_entry(m, i),
        journal_at(apply_ops(m, rollback_changes(m).unwrap()), i) == journal_at(m, i),
{
    lemma_rollback_height(m);
    let last = (height_of(m) - 1) as u64;
    let journal = last_journal(m);
    lemma_key_kinds(i, Address::Treasury);
    lemma_key_kinds(last, Address::Treasury);
    lemma_keys_injective(i, last);
    lemma_rollback_store(m, key_block(i));
    lemma_rollback_store(m, key_power(i));
    lemma_rollback_store(m, key_rollback(i));
    lemma_last_write(journal, key_block(i));
    lemma_last_write(journal, key_power(i));
    lemma_last_write(journal, key_rollback(i));
}

/// A rollback with a sound journal lowers the height by one.
pub proof fn lemma_rollback_height(m: Store)
    requires
        rollback_changes(m) is Ok,
        journal_sound(last_journal(m), (height_of(m) - 1) as u64),
    ensures
        stored_height(apply_ops(m, rollback_changes(m).unwrap())) == Ok::<u64, BlockchainError>(
            (height_of(m) - 1) as u64,
        ),
{
    lemma_rollback_parts(m);
    let last = (height_of(m) - 1) as u64;
    lemma_key_kinds(last, Address::Treasury);
    lemma_rollback_store(m, key_height());
    lemma_last_write(last_journal(m), key_height());
}

/// A rollback leaves a sound chain sound, one block lower.
pub proof fn lemma_rollback_keeps_sound(m: Store)
    requires
        sound(m),
        rollback_changes(m) is Ok,
    ensures
        sound(apply_ops(m, rollback_changes(m).unwrap())),
        height_of(apply_ops(m, rollback_changes(m).unwrap())) == height_of(m) - 1,
{
    lemma_rollback_parts(m);
    let h = height_of(m);
    let last = (h - 1) as u64;
    let journal = last_journal(m);
    let back = apply_ops(m, rollback_changes(m).unwrap());
    assert(journal_at(m, last) is Some);
    assert(journal_at(m, last) == Some(journal));
    lemma_rollback_height(m);
    lemma_key_kinds(last, Address::Treasury);
    assert forall|i: u64| i < height_of(back) implies (#[trigger] journal_at(back, i)) is Some
        && journal_sound(journal_at(back, i).unwrap(), i) by {
        lemma_rollback_entries(m, i);
        assert(journal_at(m, i) is Some);
    }
    assert forall|i: u64| i < height_of(back) implies #[trigger] powered_at(back, i) by {
        lemma_rollback_entries(m, i);
        if i > 0 {
            lemma_rollback_entries(m, (i - 1) as u64);
        }
        if i >= 64 {
            lemma_rollback_entries(m, pow_key_reference(i));
        }
        assert(powered_at(m, i));
    }
    assert forall|i: u64| i < height_of(back) implies #[trigger] linked_at(back, i) by {
        lemma_rollback_entries(m, i);
        if i > 0 {
            lemma_rollback_entries(m, (i - 1) as u64);
        }
        assert(linked_at(m, i));
    }
    assert forall|i: u64| i >= height_of(back) implies !back.contains_key(
        #[trigger] key_block(i),
    ) by {
        lemma_key_kinds(i, Address::Treasury);
        lemma_rollback_store(m, key_block(i));
        lemma_last_write(journal, key_block(i));
        if i != last {
            assert(!m.contains_key(key_block(i)));
        }
    }
    assert forall|i: u64| i >= height_of(back) implies !back.contains_key(
        #[trigger] key_merkle(i),
    ) by {
        lemma_key_kinds(i, Address::Treasury);
        lemma_rollback_store(m, key_merkle(i));
        lemma_last_write(journal, key_merkle(i));
        if i != last {
            assert(!m.contains_key(key_merkle(i)));
        }
    }
    assert forall|i: u64| i >= height_of(back) implies !back.contains_key(
        #[trigger] key_rollback(i),
    ) by {
        lemma_key_kinds(i, Address::Treasury);
        lemma_rollback_store(m, key_rollback(i));
        lemma_last_write(journal, key_rollback(i));
        if i != last {
            assert(!m.contains_key(key_rollback(i)));
        }
    }
    assert forall|i: u64| i >= height_of(back) implies !back.contains_key(
        #[trigger] key_power(i),
    ) by {
        lemma_key_kinds(i, Address::Treasury);
        lemma_rollback_store(m, key_power(i));
        lemma_last_write(journal, key_power(i));
        if i != last {
            lemma_keys_injective(i, last);
            assert(!m.contains_key(key_power(i)));
        }
    }
    assert forall|k: Seq<u8>| #![trigger back.contains_key(k)]
        back.contains_key(k) && (key_kind(k) is Account || key_kind(k) is Height || key_kind(k)
            is Power) implies back[k].len() <= u64::MAX by {
        lemma_rollback_store(m, k);
        lemma_last_write(journal, k);
        match last_write(journal, k) {
            Some(n) => {
                assert(op_ok()(journal[n]));
            },
            None => {
                assert(m.contains_key(k));
            },
        }
    }
}

/// The empty store is a sound chain of no blocks.
pub proof fn lemma_empty_sound()
    ensures
        sound(Store::empty()),
        stored_height(Store::empty()) == Ok::<u64, BlockchainError>(0),
{
}

/// A new chain on the empty store comes about, and is a sound chain of one
/// block, the first block, with no account stored.
pub proof fn lemma_new_chain_sound()
    ensures
        start_changes(Store::empty()) is Ok,
        sound(
            apply_ops(
                Store::empty(),
                start_changes(Store::empty()).unwrap(),
            ),
        ),
        height_of(
            apply_ops(
                Store::empty(),
                start_changes(Store::empty()).unwrap(),
            ),
        ) == 1,
        block_entry(
            apply_ops(
                Store::empty(),
                start_changes(Store::empty()).unwrap(),
            ),
            0,
        ) == Ok::<BlockView, BlockchainError>(genesis_block()),
        forall|a: Address|
            !apply_ops(
                Store::empty(),
                start_changes(Store::empty()).unwrap(),
            ).contains_key(#[trigger] key_account(a)),
{
    let m = Store::empty();
    let genesis = genesis_block();
    lemma_empty_sound();
    assert(block_changes(m, genesis, false) is Ok) by {
        reveal(block_changes);
        lemma_work_monotone(
            pow_digest(genesis.header, pow_base_key()),
            pow_digest(genesis.header, pow_base_key()),
        );
    }
    lemma_block_keeps_sound(m, genesis, false);
    lemma_block_entries(m, genesis, false, 0);
    let with_block = apply_ops(m, block_changes(m, genesis, false).unwrap());
    assert forall|a: Address| !with_block.contains_key(
        #[trigger] key_account(a),
    ) by {
        let k = key_account(a);
        lemma_key_kinds(0, a);
        lemma_block_store(m, genesis, false, k);
        lemma_block_parts(m, genesis, false);
        assert(pending_of(m, genesis) =~= Seq::<Op>::empty());
    }
}

/// Every block adds to the accumulated power of a sound chain: the power
/// through a block is greater than the power through the block before it.
pub proof fn lemma_power_grows(m: Store, i: u64)
    requires
        sound(m),
        i < height_of(m),
    ensures
        power_entry(m, i) is Ok,
        power_entry(m, i).unwrap() > power_before(m, i),
{
    assert(powered_at(m, i));
    let d = pow_digest(block_entry(m, i).unwrap().header, key_at(m, i));
    lemma_work_monotone(d, d);
}

/// What a block that was put on the chain left of itself, on any store:
/// the chain is one block higher, the block reads back at the old height,
/// every other block is as it was, and on a chain that was not empty the
/// block carries the old height as its number, the hash of the header
/// before it as its parent, and the Merkle root of its own body.
pub proof fn lemma_block_links(m: Store, block: BlockView, draft: bool, i: u64)
    requires
        block_changes(m, block, draft) is Ok,
        block_valid(block),
    ensures
        stored_height(m) is Ok,
        stored_height(apply_ops(m, block_changes(m, block, draft).unwrap())) == Ok::<
            u64,
            BlockchainError,
        >((height_of(m) + 1) as u64),
        block_entry(apply_ops(m, block_changes(m, block, draft).unwrap()), i) == (if i
            == height_of(m) {
            Ok(block)
        } else {
            block_entry(m, i)
        }),
        height_of(m) > 0 ==> {
            &&& block_entry(m, (height_of(m) - 1) as u64) is Ok
            &&& block.header.number == height_of(m)
            &&& block.header.parent_hash == header_digest(
                block_entry(m, (height_of(m) - 1) as u64).unwrap().header,
            )
            &&& block.header.block_root == body_root(block.body)
        },
{
    reveal(block_changes);
    let h = height_of(m);
    lemma_block_parts(m, block, draft);
    lemma_key_kinds(i, Address::Treasury);
    lemma_key_kinds(h, Address::Treasury);
    if i != h {
        lemma_keys_injective(i, h);
    }
    lemma_block_store(m, block, draft, key_block(i));
    lemma_block_store(m, block, draft, key_height());
    lemma_block_roundtrip(block);
    lemma_u64_roundtrip((h + 1) as u64);
}

} // verus!
