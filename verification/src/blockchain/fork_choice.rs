//! What replacing the end of a chain does to it, and that the answer of
//! `will_extend` is the answer that `extend` gives.

use vstd::prelude::*;
use crate::blockchain::journal::{
    height_of,
    journal_fits,
    lemma_rollback_parts,
    power_with,
    tip_clean,
};
use crate::blockchain::model::{
    block_changes,
    block_entry,
    blocks_pending,
    extend_changes,
    headers_of,
    headers_power,
    pow_key_reference,
    power_entry,
    rewind_pending,
    rollback_changes,
    stored_block,
    stored_height,
    stored_pow_key,
    stored_power,
    will_extend_answer,
};
use crate::blockchain::soundness::{
    powered_at,
    journal_at,
    lemma_block_entries,
    lemma_block_keeps_sound,
    lemma_rollback_entries,
    lemma_rollback_keeps_sound,
    linked_at,
    sound,
};
use crate::blockchain::BlockchainError;
use crate::db::{absorb_all, apply_ops, lemma_absorb_all, Op, Store};
use crate::types::header::{
    header_digest,
    header_meets_target,
    header_power,
    lemma_work_monotone,
    pow_digest,
};
use crate::types::{BlockView, Header};

verus! {

/// Whether two stores hold the same blocks and the same accumulated
/// powers below the height `from`.
pub open spec fn same_below(a: Store, b: Store, from: u64) -> bool {
    &&& forall|i: u64| i < from ==> #[trigger] block_entry(a, i) == block_entry(b, i)
    &&& forall|i: u64| i < from ==> #[trigger] power_entry(a, i) == power_entry(b, i)
}

/// Rolling a sound chain back to the height `from` leaves a sound chain of
/// that height, with all that was stored for the blocks below `from`.
pub proof fn lemma_rewind(m: Store, pending: Seq<Op>, from: u64)
    requires
        sound(apply_ops(m, pending)),
        from <= height_of(apply_ops(m, pending)),
        rewind_pending(m, pending, from) is Ok,
    ensures
        sound(apply_ops(m, rewind_pending(m, pending, from).unwrap())),
        height_of(apply_ops(m, rewind_pending(m, pending, from).unwrap())) == from,
        same_below(apply_ops(m, rewind_pending(m, pending, from).unwrap()), apply_ops(m, pending), from),
    decreases height_of(apply_ops(m, pending)),
{
    let now = apply_ops(m, pending);
    let h = height_of(now);
    if h > from {
        let changes = rollback_changes(now).unwrap();
        let next = absorb_all(pending, changes);
        lemma_absorb_all(m, pending, changes);
        lemma_rollback_keeps_sound(now);
        lemma_rollback_parts(now);
        assert(journal_at(now, (h - 1) as u64) is Some);
        lemma_rewind(m, next, from);
        let end = apply_ops(m, rewind_pending(m, pending, from).unwrap());
        assert forall|i: u64| i < from implies #[trigger] block_entry(end, i) == block_entry(now, i) by {
            lemma_rollback_entries(now, i);
            assert(block_entry(end, i) == block_entry(apply_ops(m, next), i));
            assert(power_entry(end, i) == power_entry(apply_ops(m, next), i));
        }
        assert forall|i: u64| i < from implies #[trigger] power_entry(end, i) == power_entry(now, i) by {
            lemma_rollback_entries(now, i);
            assert(block_entry(end, i) == block_entry(apply_ops(m, next), i));
            assert(power_entry(end, i) == power_entry(apply_ops(m, next), i));
        }
    }
}

/// Whether the blocks of a run are what is stored from the height `from`
/// on, in order.
pub open spec fn holds_run(m: Store, from: u64, blocks: Seq<BlockView>) -> bool {
    forall|i: int|
        0 <= i < blocks.len() ==> block_entry(m, (from + i) as u64) == Ok::<
            BlockView,
            BlockchainError,
        >(#[trigger] blocks[i])
}

/// Whether every one of a run of blocks fits.
pub open spec fn all_fit(blocks: Seq<BlockView>) -> bool {
    forall|i: int| 0 <= i < blocks.len() ==> journal_fits(#[trigger] blocks[i])
}

/// Whether the proof-of-work key of every one of a run of blocks is the
/// first key, or is taken from a block below the height `from`: the run
/// does not reach as far as the keys rotate.
pub open spec fn keys_below(blocks: Seq<BlockView>, from: u64) -> bool {
    forall|i: int|
        0 <= i < blocks.len() ==> (#[trigger] blocks[i]).header.number < 64 || pow_key_reference(
            blocks[i].header.number,
        ) < from
}

/// Putting a run of blocks on a sound chain that is not empty leaves a
/// sound chain, higher by the number of blocks, with all that was stored
/// for the blocks that were there.
pub proof fn lemma_blocks_keep_sound(m: Store, pending: Seq<Op>, blocks: Seq<BlockView>)
    requires
        sound(apply_ops(m, pending)),
        height_of(apply_ops(m, pending)) > 0,
        all_fit(blocks),
        blocks_pending(m, pending, blocks) is Ok,
    ensures
        sound(apply_ops(m, blocks_pending(m, pending, blocks).unwrap())),
        height_of(apply_ops(m, blocks_pending(m, pending, blocks).unwrap())) == height_of(
            apply_ops(m, pending),
        ) + blocks.len(),
        same_below(
            apply_ops(m, blocks_pending(m, pending, blocks).unwrap()),
            apply_ops(m, pending),
            height_of(apply_ops(m, pending)),
        ),
        holds_run(
            apply_ops(m, blocks_pending(m, pending, blocks).unwrap()),
            height_of(apply_ops(m, pending)),
            blocks,
        ),
    decreases blocks.len(),
{
    let now = apply_ops(m, pending);
    let h = height_of(now);
    if blocks.len() > 0 {
        let block = blocks[0];
        let rest = blocks.drop_first();
        let changes = block_changes(now, block, false).unwrap();
        let next = absorb_all(pending, changes);
        let then = apply_ops(m, next);
        lemma_absorb_all(m, pending, changes);
        lemma_block_keeps_sound(now, block, false);
        assert forall|i: int| 0 <= i < rest.len() implies journal_fits(#[trigger] rest[i]) by {
            assert(rest[i] == blocks[i + 1]);
        }
        lemma_blocks_keep_sound(m, next, rest);
        let end = apply_ops(m, blocks_pending(m, pending, blocks).unwrap());
        assert(end == apply_ops(m, blocks_pending(m, next, rest).unwrap()));
        lemma_block_entries(now, block, false, h);
        assert(block_entry(end, h) == block_entry(then, h));
        assert forall|i: int| 0 <= i < blocks.len() implies block_entry(end, (h + i) as u64) == Ok::<
            BlockView,
            BlockchainError,
        >(#[trigger] blocks[i]) by {
            if i > 0 {
                assert(rest[i - 1] == blocks[i]);
                assert(block_entry(end, ((h + 1) + (i - 1)) as u64) == Ok::<
                    BlockView,
                    BlockchainError,
                >(rest[i - 1]));
            }
        }
        assert forall|i: u64| i < h implies #[trigger] block_entry(end, i) == block_entry(now, i) by {
            lemma_block_entries(now, block, false, i);
            assert(block_entry(end, i) == block_entry(then, i));
            assert(power_entry(end, i) == power_entry(then, i));
        }
        assert forall|i: u64| i < h implies #[trigger] power_entry(end, i) == power_entry(now, i) by {
            lemma_block_entries(now, block, false, i);
            assert(block_entry(end, i) == block_entry(then, i));
            assert(power_entry(end, i) == power_entry(then, i));
        }
    }
}

/// What a block that applies in full on a chain that is not empty was
/// held to: its proof of work is within its target, it carries the height
/// as its number and the hash of the last header as its parent, and the
/// accumulated power with it can be counted.
pub proof fn lemma_block_was_checked(now: Store, block: BlockView)
    requires
        height_of(now) > 0,
        block_changes(now, block, false) is Ok,
    ensures
        stored_height(now) is Ok,
        stored_pow_key(now, block.header.number) is Ok,
        stored_block(now, (height_of(now) - 1) as u64) is Ok,
        stored_power(now) is Ok,
        header_meets_target(block.header, stored_pow_key(now, block.header.number).unwrap()),
        block.header.number == height_of(now),
        block.header.parent_hash == header_digest(
            stored_block(now, (height_of(now) - 1) as u64).unwrap().header,
        ),
        stored_power(now).unwrap() + header_power(
            block.header,
            stored_pow_key(now, block.header.number).unwrap(),
        ) <= u64::MAX,
{
    reveal(block_changes);
}

/// Two stores that hold the same blocks below `from` give the same
/// proof-of-work key for a block whose key lies below `from`.
pub proof fn lemma_same_key(now: Store, base: Store, from: u64, number: u64)
    requires
        stored_height(now) is Ok,
        stored_height(base) is Ok,
        from <= height_of(base),
        from <= height_of(now),
        same_below(now, base, from),
        number < 64 || pow_key_reference(number) < from,
    ensures
        stored_pow_key(now, number) == stored_pow_key(base, number),
{
    if number >= 64 {
        let reference = pow_key_reference(number);
        assert(block_entry(now, reference) == block_entry(base, reference));
    }
}

/// What a block that applies in full adds to a run of headers: judged on
/// a store that gives the same proof-of-work key, its header passes every
/// check of `headers_power` and adds its own power.
pub proof fn lemma_header_counts(now: Store, block: BlockView, base: Store, more: Seq<Header>)
    requires
        height_of(now) > 0,
        linked_at(now, (height_of(now) - 1) as u64),
        block_changes(now, block, false) is Ok,
        stored_pow_key(now, block.header.number) == stored_pow_key(base, block.header.number),
    ensures
        stored_power(now) is Ok,
        block_entry(now, (height_of(now) - 1) as u64) is Ok,
        headers_power(
            base,
            block_entry(now, (height_of(now) - 1) as u64).unwrap().header,
            stored_power(now).unwrap(),
            seq![block.header] + more,
        ) == headers_power(base, block.header, power_with(now, block), more),
{
    lemma_block_was_checked(now, block);
    let headers = seq![block.header] + more;
    assert(headers[0] == block.header);
    assert(headers.drop_first() =~= more);
}

/// What one block that applies in full does to a sound chain that is not
/// empty: the chain stays sound and is one block higher, the block stands
/// at the old height with the accumulated power through it, and what a
/// store `base` shared with the chain below `from` it still shares.
pub proof fn lemma_block_step(now: Store, block: BlockView, base: Store, from: u64)
    requires
        sound(now),
        height_of(now) > 0,
        journal_fits(block),
        block_changes(now, block, false) is Ok,
        from <= height_of(now),
        same_below(now, base, from),
    ensures
        sound(apply_ops(now, block_changes(now, block, false).unwrap())),
        height_of(apply_ops(now, block_changes(now, block, false).unwrap())) == height_of(now) + 1,
        same_below(apply_ops(now, block_changes(now, block, false).unwrap()), base, from),
        block_entry(apply_ops(now, block_changes(now, block, false).unwrap()), height_of(now))
            == Ok::<BlockView, BlockchainError>(block),
        stored_power(apply_ops(now, block_changes(now, block, false).unwrap())) == Ok::<
            u64,
            BlockchainError,
        >(power_with(now, block)),
        linked_at(now, (height_of(now) - 1) as u64),
{
    let h = height_of(now);
    let then = apply_ops(now, block_changes(now, block, false).unwrap());
    lemma_block_keeps_sound(now, block, false);
    assert(linked_at(now, (h - 1) as u64));
    assert forall|i: u64| i < from implies #[trigger] block_entry(then, i) == block_entry(
        base,
        i,
    ) by {
        lemma_block_entries(now, block, false, i);
        assert(block_entry(now, i) == block_entry(base, i));
    }
    assert forall|i: u64| i < from implies #[trigger] power_entry(then, i) == power_entry(
        base,
        i,
    ) by {
        lemma_block_entries(now, block, false, i);
        assert(power_entry(now, i) == power_entry(base, i));
    }
    lemma_block_entries(now, block, false, h);
}

/// The accumulated power of a chain after a run of blocks is what the
/// headers of the run add up to, judged on a store `base` that holds the
/// same blocks below `from`, where the proof-of-work keys of the run lie
/// below `from`.
pub proof fn lemma_blocks_add_up(
    m: Store,
    pending: Seq<Op>,
    blocks: Seq<BlockView>,
    base: Store,
    from: u64,
)
    requires
        sound(apply_ops(m, pending)),
        height_of(apply_ops(m, pending)) > 0,
        all_fit(blocks),
        keys_below(blocks, from),
        blocks_pending(m, pending, blocks) is Ok,
        stored_height(base) is Ok,
        from <= height_of(base),
        from <= height_of(apply_ops(m, pending)),
        same_below(apply_ops(m, pending), base, from),
    ensures
        block_entry(apply_ops(m, pending), (height_of(apply_ops(m, pending)) - 1) as u64) is Ok,
        stored_power(apply_ops(m, pending)) is Ok,
        headers_power(
            base,
            block_entry(
                apply_ops(m, pending),
                (height_of(apply_ops(m, pending)) - 1) as u64,
            ).unwrap().header,
            stored_power(apply_ops(m, pending)).unwrap(),
            headers_of(blocks),
        ) == stored_power(apply_ops(m, blocks_pending(m, pending, blocks).unwrap())),
    decreases blocks.len(),
{
    let now = apply_ops(m, pending);
    let h = height_of(now);
    lemma_last_entries(now);
    if blocks.len() == 0 {
        assert(headers_of(blocks) =~= Seq::<Header>::empty());
    } else {
        let block = blocks[0];
        let rest = blocks.drop_first();
        let changes = block_changes(now, block, false).unwrap();
        let next = absorb_all(pending, changes);
        lemma_absorb_all(m, pending, changes);
        assert(journal_fits(blocks[0]));
        lemma_block_step(now, block, base, from);
        lemma_rest_of_run(blocks, from);
        lemma_blocks_add_up(m, next, rest, base, from);
        assert(blocks[0].header.number < 64 || pow_key_reference(blocks[0].header.number) < from);
        lemma_same_key(now, base, from, block.header.number);
        lemma_header_counts(now, block, base, headers_of(rest));
        assert(headers_of(blocks) =~= seq![block.header] + headers_of(rest));
    }
}

/// The last block of a sound chain that is not empty is stored, and so is
/// the accumulated power through it.
pub proof fn lemma_last_entries(now: Store)
    requires
        sound(now),
        height_of(now) > 0,
    ensures
        block_entry(now, (height_of(now) - 1) as u64) is Ok,
        stored_power(now) is Ok,
        stored_power(now) == power_entry(now, (height_of(now) - 1) as u64),
{
    let h = height_of(now);
    assert(linked_at(now, (h - 1) as u64));
    assert(powered_at(now, (h - 1) as u64));
}

/// What holds of a run of blocks holds of the run without its first block.
pub proof fn lemma_rest_of_run(blocks: Seq<BlockView>, from: u64)
    requires
        blocks.len() > 0,
        all_fit(blocks),
        keys_below(blocks, from),
    ensures
        all_fit(blocks.drop_first()),
        keys_below(blocks.drop_first(), from),
{
    let rest = blocks.drop_first();
    assert forall|i: int| 0 <= i < rest.len() implies journal_fits(#[trigger] rest[i]) by {
        assert(rest[i] == blocks[i + 1]);
    }
    assert forall|i: int| 0 <= i < rest.len() implies (#[trigger] rest[i]).header.number < 64
        || pow_key_reference(rest[i].header.number) < from by {
        assert(rest[i] == blocks[i + 1]);
    }
}

/// Replacing the end of a sound chain leaves a sound chain: one that is
/// linked block to block, with a sound journal for each block. It is as
/// high as `from` and the new blocks together, it holds the blocks below
/// `from` as they were, and from `from` on it holds the new blocks, in
/// order, and none of the old ones: nothing is stored for a height at or
/// above the new tip.
pub proof fn lemma_extend_keeps_sound(m: Store, from: u64, blocks: Seq<BlockView>)
    requires
        sound(m),
        all_fit(blocks),
        extend_changes(m, from, blocks) is Ok,
    ensures
        sound(apply_ops(m, extend_changes(m, from, blocks).unwrap())),
        height_of(apply_ops(m, extend_changes(m, from, blocks).unwrap())) == from + blocks.len(),
        same_below(apply_ops(m, extend_changes(m, from, blocks).unwrap()), m, from),
        holds_run(apply_ops(m, extend_changes(m, from, blocks).unwrap()), from, blocks),
        tip_clean(apply_ops(m, extend_changes(m, from, blocks).unwrap())),
{
    let none = Seq::<Op>::empty();
    assert(apply_ops(m, none) == m);
    lemma_rewind(m, none, from);
    let rewound = rewind_pending(m, none, from).unwrap();
    lemma_blocks_keep_sound(m, rewound, blocks);
    let back = apply_ops(m, rewound);
    let end = apply_ops(m, extend_changes(m, from, blocks).unwrap());
    assert forall|i: u64| i < from implies #[trigger] block_entry(end, i) == block_entry(m, i) by {
        assert(block_entry(end, i) == block_entry(back, i));
        assert(power_entry(end, i) == power_entry(back, i));
        assert(block_entry(back, i) == block_entry(m, i));
        assert(power_entry(back, i) == power_entry(m, i));
    }
    assert forall|i: u64| i < from implies #[trigger] power_entry(end, i) == power_entry(m, i) by {
        assert(block_entry(end, i) == block_entry(back, i));
        assert(power_entry(end, i) == power_entry(back, i));
        assert(block_entry(back, i) == block_entry(m, i));
        assert(power_entry(back, i) == power_entry(m, i));
    }
}

/// The answer of `will_extend` is the answer that `extend` gives: where
/// `extend` replaces the end of a sound chain by a run of blocks, and the
/// run does not reach as far as the proof-of-work keys rotate,
/// `will_extend` on the headers of the run says whether the new chain has
/// more accumulated power than the old one.
pub proof fn lemma_will_extend_agrees(m: Store, from: u64, blocks: Seq<BlockView>)
    requires
        sound(m),
        all_fit(blocks),
        keys_below(blocks, from),
        extend_changes(m, from, blocks) is Ok,
    ensures
        stored_power(m) is Ok,
        stored_power(apply_ops(m, extend_changes(m, from, blocks).unwrap())) is Ok,
        will_extend_answer(m, from, headers_of(blocks)) == Ok::<bool, BlockchainError>(
            stored_power(apply_ops(m, extend_changes(m, from, blocks).unwrap())).unwrap()
                > stored_power(m).unwrap(),
        ),
        stored_power(apply_ops(m, extend_changes(m, from, blocks).unwrap())) == headers_power(
            m,
            block_entry(m, (from - 1) as u64).unwrap().header,
            power_entry(m, (from - 1) as u64).unwrap(),
            headers_of(blocks),
        ),
{
    let none = Seq::<Op>::empty();
    assert(apply_ops(m, none) == m);
    let h = height_of(m);
    assert(powered_at(m, (h - 1) as u64));
    assert(powered_at(m, (from - 1) as u64));
    assert(linked_at(m, (from - 1) as u64));
    lemma_rewind(m, none, from);
    let rewound = rewind_pending(m, none, from).unwrap();
    let back = apply_ops(m, rewound);
    assert(block_entry(back, (from - 1) as u64) == block_entry(m, (from - 1) as u64));
    assert(power_entry(back, (from - 1) as u64) == power_entry(m, (from - 1) as u64));
    lemma_blocks_keep_sound(m, rewound, blocks);
    lemma_blocks_add_up(m, rewound, blocks, m, from);
    let end = apply_ops(m, extend_changes(m, from, blocks).unwrap());
    assert(powered_at(end, (height_of(end) - 1) as u64));
}

/// Whether a run of headers follows the header `last`: each is within its
/// target under its proof-of-work key, carries the number after the one
/// before it, and names the hash of the one before it as its parent.
pub open spec fn headers_linked(m: Store, last: Header, headers: Seq<Header>) -> bool
    decreases headers.len(),
{
    if headers.len() == 0 {
        true
    } else {
        let h = headers[0];
        &&& stored_pow_key(m, h.number) is Ok
        &&& header_meets_target(h, stored_pow_key(m, h.number).unwrap())
        &&& h.number == last.number + 1
        &&& h.parent_hash == header_digest(last)
        &&& headers_linked(m, h, headers.drop_first())
    }
}

/// The power of a run of headers, added up, each under its own key.
pub open spec fn headers_work(m: Store, headers: Seq<Header>) -> int
    decreases headers.len(),
{
    if headers.len() == 0 {
        0
    } else {
        header_power(headers[0], stored_pow_key(m, headers[0].number).unwrap()) + headers_work(
            m,
            headers.drop_first(),
        )
    }
}

/// Every header adds power: the power of a run is at least its length.
pub proof fn lemma_headers_work_grows(m: Store, headers: Seq<Header>)
    ensures
        headers_work(m, headers) >= headers.len(),
    decreases headers.len(),
{
    if headers.len() > 0 {
        let d = pow_digest(headers[0], stored_pow_key(m, headers[0].number).unwrap());
        lemma_work_monotone(d, d);
        lemma_headers_work_grows(m, headers.drop_first());
    }
}

/// The accumulated power that a linked run of headers brings a chain to
/// is the power before the run and the power of the run, where that can
/// be counted in 64 bits.
pub proof fn lemma_headers_power_sum(m: Store, last: Header, power: u64, headers: Seq<Header>)
    requires
        headers_linked(m, last, headers),
    ensures
        headers_power(m, last, power, headers) == (if power + headers_work(m, headers)
            <= u64::MAX {
            Ok((power + headers_work(m, headers)) as u64)
        } else {
            Err(BlockchainError::Inconsistency)
        }),
    decreases headers.len(),
{
    if headers.len() > 0 {
        let h = headers[0];
        let key = stored_pow_key(m, h.number).unwrap();
        let d = pow_digest(h, key);
        lemma_work_monotone(d, d);
        lemma_headers_work_grows(m, headers.drop_first());
        if power + header_power(h, key) <= u64::MAX {
            lemma_headers_power_sum(
                m,
                h,
                (power + header_power(h, key)) as u64,
                headers.drop_first(),
            );
        }
    }
}

/// A linked run of headers without its last header is a linked run, and
/// the last header adds its own power, which is at least 1.
pub proof fn lemma_headers_push(m: Store, last: Header, headers: Seq<Header>, more: Header)
    requires
        headers_linked(m, last, headers.push(more)),
    ensures
        headers_linked(m, last, headers),
        headers_work(m, headers.push(more)) == headers_work(m, headers) + header_power(
            more,
            stored_pow_key(m, more.number).unwrap(),
        ),
        header_power(more, stored_pow_key(m, more.number).unwrap()) >= 1,
    decreases headers.len(),
{
    let all = headers.push(more);
    let d = pow_digest(more, stored_pow_key(m, more.number).unwrap());
    lemma_work_monotone(d, d);
    if headers.len() == 0 {
        assert(all[0] == more);
        assert(all.drop_first() =~= Seq::<Header>::empty());
        assert(headers_work(m, all.drop_first()) == 0);
    } else {
        assert(all[0] == headers[0]);
        assert(all.drop_first() =~= headers.drop_first().push(more));
        lemma_headers_push(m, headers[0], headers.drop_first(), more);
    }
}

/// What `will_extend` answers for a linked run of headers: whether the
/// accumulated power through the block before `from`, with the power of
/// the run, is greater than the power of the chain as it is. Equal power
/// is not more.
pub proof fn lemma_will_extend_formula(m: Store, from: u64, headers: Seq<Header>)
    requires
        from > 0,
        stored_height(m) is Ok,
        from <= height_of(m),
        stored_power(m) is Ok,
        power_entry(m, (from - 1) as u64) is Ok,
        stored_block(m, (from - 1) as u64) is Ok,
        headers_linked(m, stored_block(m, (from - 1) as u64).unwrap().header, headers),
        power_entry(m, (from - 1) as u64).unwrap() + headers_work(m, headers) <= u64::MAX,
    ensures
        will_extend_answer(m, from, headers) == Ok::<bool, BlockchainError>(
            power_entry(m, (from - 1) as u64).unwrap() + headers_work(m, headers) > stored_power(
                m,
            ).unwrap(),
        ),
{
    let last = stored_block(m, (from - 1) as u64).unwrap().header;
    let base = power_entry(m, (from - 1) as u64).unwrap();
    lemma_headers_power_sum(m, last, base, headers);
    lemma_headers_work_grows(m, headers);
    let sum = (base + headers_work(m, headers)) as u64;
    assert(headers_power(m, last, base, headers) == Ok::<u64, BlockchainError>(sum));
    assert(will_extend_answer(m, from, headers) == Ok::<bool, BlockchainError>(
        sum > stored_power(m).unwrap(),
    ));
}

/// One more header never turns the answer of `will_extend` from yes to
/// no: where a run of headers would extend the chain, the run with one
/// more linked header would extend it too.
pub proof fn lemma_will_extend_longer(m: Store, from: u64, headers: Seq<Header>, more: Header)
    requires
        from > 0,
        stored_height(m) is Ok,
        from <= height_of(m),
        stored_power(m) is Ok,
        power_entry(m, (from - 1) as u64) is Ok,
        stored_block(m, (from - 1) as u64) is Ok,
        headers_linked(
            m,
            stored_block(m, (from - 1) as u64).unwrap().header,
            headers.push(more),
        ),
        power_entry(m, (from - 1) as u64).unwrap() + headers_work(m, headers.push(more))
            <= u64::MAX,
        will_extend_answer(m, from, headers) == Ok::<bool, BlockchainError>(true),
    ensures
        will_extend_answer(m, from, headers.push(more)) == Ok::<bool, BlockchainError>(true),
{
    let last = stored_block(m, (from - 1) as u64).unwrap().header;
    lemma_headers_push(m, last, headers, more);
    lemma_will_extend_formula(m, from, headers);
    lemma_will_extend_formula(m, from, headers.push(more));
}

} // verus!
