//! The messages between nodes, and between a node and its miner.

use vstd::prelude::*;
use crate::node::{PeerAddress, PeerInfo, PeerStats};
use crate::types::{Address, Block, Header, Money, Transaction};

verus! {

#[derive(Debug)]
pub struct PostMinerSolutionRequest {
    /// The nonce that the miner found, in hexadecimal.
    pub nonce: String,
}

#[derive(Debug)]
pub struct PostMinerSolutionResponse {}

#[derive(Debug)]
pub struct GetMinerPuzzleRequest {}

#[derive(Debug)]
pub struct Puzzle {
    /// The proof-of-work key, in hexadecimal.
    pub key: String,
    /// The header to hash, in hexadecimal.
    pub blob: String,
    /// The byte at which the nonce starts.
    pub offset: usize,
    /// The number of bytes of the nonce.
    pub size: usize,
    /// The difficulty target.
    pub target: u32,
}

#[derive(Debug)]
pub struct RegisterMinerRequest {
    pub webhook: String,
}

#[derive(Debug)]
pub struct RegisterMinerResponse {}

#[derive(Debug)]
pub struct PostPeerRequest {
    pub address: PeerAddress,
    pub info: PeerInfo,
    pub timestamp: u64,
}

#[derive(Debug)]
pub struct PostPeerResponse {
    pub info: PeerInfo,
    pub timestamp: u64,
}

#[derive(Debug)]
pub struct GetPeersRequest {}

#[derive(Debug)]
pub struct GetPeersResponse {
    pub peers: Vec<(PeerAddress, PeerStats)>,
}

#[derive(Debug)]
pub struct PostBlockRequest {
    pub block: Block,
}

#[derive(Debug)]
pub struct PostBlockResponse {}

#[derive(Debug)]
pub struct GetBlocksRequest {
    pub since: u64,
    pub until: Option<u64>,
}

#[derive(Debug)]
pub struct GetBlocksResponse {
    pub blocks: Vec<Block>,
}

#[derive(Debug)]
pub struct GetHeadersRequest {
    pub since: u64,
    pub until: Option<u64>,
}

#[derive(Debug)]
pub struct GetHeadersResponse {
    pub headers: Vec<Header>,
}

#[derive(Debug)]
pub struct GetBalanceRequest {
    pub addr: Address,
}

#[derive(Debug)]
pub struct GetBalanceResponse {
    pub amount: Money,
}

#[derive(Debug)]
pub struct TransactRequest {
    pub tx: Transaction,
}

#[derive(Debug)]
pub struct TransactResponse {}

} // verus!
