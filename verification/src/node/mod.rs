//! What nodes know of each other and say to each other.

use vstd::prelude::*;

pub mod api;
pub mod heartbeat;
pub mod miner;

verus! {

/// Where a peer is reached.
#[derive(Debug, PartialEq, Eq, Hash)]
pub struct PeerAddress(pub String);

impl Clone for PeerAddress {
    fn clone(&self) -> (copy: PeerAddress)
        ensures
            copy == *self,
    {
        PeerAddress(self.0.clone())
    }
}

/// What a peer says of its chain.
#[derive(Debug, Clone, Copy, PartialEq, Eq)]
pub struct PeerInfo {
    pub height: u64,
    pub power: u64,
}

/// What a node keeps about a peer.
#[derive(Debug, Clone, Copy, PartialEq, Eq)]
pub struct PeerStats {
    /// The network time until which the peer is left alone.
    pub punished_until: u64,
    pub info: Option<PeerInfo>,
}

impl PeerStats {
    /// Whether the peer is left alone at the time `now`.
    pub fn is_punished(&self, now: u64) -> (punished: bool)
        ensures
            punished == (now < self.punished_until),
    {
        now < self.punished_until
    }

    /// Leaves the peer alone for `secs` seconds from `now` on, and not
    /// shorter than it was already left alone.
    pub fn punish(&mut self, now: u64, secs: u64)
        ensures
            final(self).info == old(self).info,
            final(self).punished_until == if now + secs > u64::MAX {
                u64::MAX
            } else if now + secs > old(self).punished_until {
                (now + secs) as u64
            } else {
                old(self).punished_until
            },
    {
        let until = now.saturating_add(secs);
        if until > self.punished_until {
            self.punished_until = until;
        }
    }
}

/// How far the network's clock is ahead of the local one.
pub fn clock_offset(network: u64, local: u64) -> (offset: i128)
    ensures
        offset == network - local,
{
    network as i128 - local as i128
}

} // verus!
