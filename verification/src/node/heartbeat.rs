//! What a node decides at each heartbeat, from what its peers answered.

use vstd::prelude::*;
use crate::node::{clock_offset, PeerAddress, PeerStats};
use crate::utils::{in_order, median};

verus! {

/// For how many seconds a peer that did not answer is left alone.
pub const NO_RESPONSE_PUNISH: u64 = 600;

/// To how many peers a node talks at each heartbeat.
pub const NUM_PEERS: usize = 8;

/// How far the network's clock is ahead of the local one, judged by the
/// clocks that peers reported: by their median. With no report there is
/// nothing to judge by.
pub fn network_offset(timestamps: &Vec<u64>, local: u64) -> (offset: Option<i128>)
    ensures
        match offset {
            Some(off) => timestamps@.len() > 0 && off == in_order(
                timestamps@,
            )[timestamps@.len() as int / 2] - local,
            None => timestamps@.len() == 0,
        },
{
    if timestamps.len() > 0 {
        Some(clock_offset(median(timestamps), local))
    } else {
        None
    }
}

/// Whether an address is among those of a list.
pub open spec fn among(list: Seq<PeerAddress>, address: PeerAddress) -> bool {
    exists|i: int| 0 <= i < list.len() && (#[trigger] list[i]).0@ == address.0@
}

/// Whether an address is among those of a list.
pub fn is_among(list: &Vec<PeerAddress>, address: &PeerAddress) -> (found: bool)
    ensures
        found == among(list@, *address),
{
    let mut i: usize = 0;
    while i < list.len()
        invariant
            i <= list.len(),
            forall|j: int| 0 <= j < i ==> (#[trigger] list@[j]).0@ != address.0@,
        decreases list.len() - i,
    {
        if list[i].0 == address.0 {
            return true;
        }
        i = i + 1;
    }
    false
}

/// What a peer's record is after a heartbeat at the time `now`: a peer
/// that did not answer is left alone for a while, any other stays as it is.
pub open spec fn after_heartbeat(stats: PeerStats, failed: bool, now: u64) -> PeerStats {
    if !failed {
        stats
    } else if now + NO_RESPONSE_PUNISH > u64::MAX {
        PeerStats { punished_until: u64::MAX, ..stats }
    } else if now + NO_RESPONSE_PUNISH > stats.punished_until {
        PeerStats { punished_until: (now + NO_RESPONSE_PUNISH) as u64, ..stats }
    } else {
        stats
    }
}

/// Punishes the peers that did not answer, and no others.
pub fn punish_unresponsive(
    peers: &mut Vec<(PeerAddress, PeerStats)>,
    failed: &Vec<PeerAddress>,
    now: u64,
)
    ensures
        final(peers)@.len() == old(peers)@.len(),
        forall|i: int|
            0 <= i < old(peers)@.len() ==> (#[trigger] final(peers)@[i]).0 == old(peers)@[i].0
                && final(peers)@[i].1 == after_heartbeat(
                old(peers)@[i].1,
                among(failed@, old(peers)@[i].0),
                now,
            ),
{
    let mut i: usize = 0;
    while i < peers.len()
        invariant
            i <= peers.len(),
            peers@.len() == old(peers)@.len(),
            forall|j: int|
                0 <= j < i ==> (#[trigger] peers@[j]).0 == old(peers)@[j].0 && peers@[j].1
                    == after_heartbeat(old(peers)@[j].1, among(failed@, old(peers)@[j].0), now),
            forall|j: int| i <= j < peers@.len() ==> (#[trigger] peers@[j]) == old(peers)@[j],
        decreases peers.len() - i,
    {
        if is_among(failed, &peers[i].0) {
            let mut stats = peers[i].1;
            stats.punish(now, NO_RESPONSE_PUNISH);
            peers[i].1 = stats;
        }
        i = i + 1;
    }
}

} // verus!
