//! The constants of the protocol.

use vstd::prelude::*;

pub mod genesis;

verus! {

/// All the money there is. It starts in the treasury.
pub const TOTAL_SUPPLY: u64 = 2_000_000_000_000_000_000;

/// The time between two blocks that retargeting aims at, in seconds.
pub const BLOCK_TIME: u64 = 60;

/// After how many blocks the difficulty is looked at again.
pub const DIFFICULTY_CALC_INTERVAL: u64 = 128;

/// How far behind the tip the block lies whose hash keys the proof of work.
pub const POW_KEY_CHANGE_DELAY: u64 = 64;

/// For how many blocks one proof-of-work key stays in use.
pub const POW_KEY_CHANGE_INTERVAL: u64 = 128;

/// The difficulty target of the first block, which drafted blocks inherit.
pub const GENESIS_TARGET: u32 = 0x00ff_ffff;

/// The proof-of-work key of the first blocks.
pub open spec fn pow_base_key() -> Seq<u8> {
    Seq::new(32, |i: int| (i + 1) as u8)
}

/// The proof-of-work key of the first blocks.
pub fn base_key() -> (key: [u8; 32])
    ensures
        key@ == pow_base_key(),
{
    let mut key: [u8; 32] = [0u8; 32];
    let mut i: usize = 0;
    while i < 32
        invariant
            i <= 32,
            forall|j: int| 0 <= j < i ==> key@[j] == (j + 1) as u8,
        decreases 32 - i,
    {
        key[i] = (i + 1) as u8;
        i = i + 1;
    }
    assert(key@ =~= pow_base_key());
    key
}

} // verus!
