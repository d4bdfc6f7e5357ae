use ledger_core::node::api::messages::{
    GetBalanceRequest, GetBalanceResponse, GetBlocksRequest, GetBlocksResponse, GetHeadersRequest,
    GetHeadersResponse, GetMinerPuzzleRequest, GetPeersRequest, GetPeersResponse, PostBlockRequest,
    PostBlockResponse, PostMinerSolutionRequest, PostMinerSolutionResponse, PostPeerRequest,
    PostPeerResponse, Puzzle, RegisterMinerRequest, RegisterMinerResponse, TransactRequest,
    TransactResponse,
};
use ledger_core::codec::encode_header;
use ledger_core::node::heartbeat::{is_among, network_offset, punish_unresponsive, NO_RESPONSE_PUNISH};
use ledger_core::node::miner::{parse_nonce, puzzle_of, with_nonce, Miner, NONCE_OFFSET, NONCE_SIZE};
use ledger_core::node::{clock_offset, PeerAddress, PeerInfo, PeerStats};
use ledger_core::utils::{median, sort};
use ledger_core::config::genesis::get_genesis_block;
use ledger_core::types::Address;

#[test]
fn punished_until() {
    let mut stats = PeerStats { punished_until: 0, info: None };
    assert!(!stats.is_punished(0));
    stats.punish(100, 5);
    assert_eq!(stats.punished_until, 105);
    assert!(stats.is_punished(104));
    assert!(!stats.is_punished(105));
    // never shorter than it was
    stats.punish(10, 5);
    assert_eq!(stats.punished_until, 105);
    stats.punish(u64::MAX, 5);
    assert_eq!(stats.punished_until, u64::MAX);
    assert_eq!(stats.info, None);
    let mut stats = PeerStats { punished_until: 7, info: Some(PeerInfo { height: 1, power: 2 }) };
    stats.punish(1, 1);
    assert_eq!(stats, PeerStats { punished_until: 7, info: Some(PeerInfo { height: 1, power: 2 }) });
}

#[test]
fn clock_offsets() {
    assert_eq!(clock_offset(105, 100), 5);
    assert_eq!(clock_offset(100, 105), -5);
    assert_eq!(clock_offset(0, u64::MAX), -(u64::MAX as i128));
    assert_eq!(clock_offset(u64::MAX, 0), u64::MAX as i128);
}

#[test]
fn messages_hold_their_fields() {
    let block = get_genesis_block();
    let peer = PeerAddress("http://127.0.0.1:3030".to_string());
    let info = PeerInfo { height: 3, power: 9 };
    assert_eq!(PostMinerSolutionRequest { nonce: "00".to_string() }.nonce, "00");
    let puzzle = Puzzle { key: "k".into(), blob: "b".into(), offset: 80, size: 8, target: 5 };
    assert_eq!((puzzle.offset, puzzle.size, puzzle.target), (80, 8, 5));
    assert_eq!(RegisterMinerRequest { webhook: "w".to_string() }.webhook, "w");
    let req = PostPeerRequest { address: peer.clone(), info, timestamp: 7 };
    assert_eq!((req.address, req.info, req.timestamp), (peer.clone(), info, 7));
    assert_eq!(PostPeerResponse { info, timestamp: 8 }.timestamp, 8);
    let stats = PeerStats { punished_until: 0, info: Some(info) };
    assert_eq!(GetPeersResponse { peers: vec![(peer.clone(), stats)] }.peers.len(), 1);
    assert_eq!(PostBlockRequest { block: block.clone() }.block, block);
    assert_eq!(GetBlocksRequest { since: 1, until: Some(2) }.until, Some(2));
    assert_eq!(GetBlocksResponse { blocks: vec![block.clone()] }.blocks, vec![block.clone()]);
    assert_eq!(GetHeadersRequest { since: 1, until: None }.since, 1);
    assert_eq!(GetHeadersResponse { headers: vec![block.header] }.headers, vec![block.header]);
    assert_eq!(GetBalanceRequest { addr: Address::Treasury }.addr, Address::Treasury);
    assert_eq!(GetBalanceResponse { amount: 4 }.amount, 4);
    let tx = ledger_core::wallet::Wallet::new(vec![1]).create_transaction(Address::Treasury, 1, 1);
    assert_eq!(TransactRequest { tx }.tx, tx);
    let _ = (
        PostMinerSolutionResponse {},
        GetMinerPuzzleRequest {},
        RegisterMinerResponse {},
        GetPeersRequest {},
        PostBlockResponse {},
        TransactResponse {},
    );
}

#[test]
fn sort_and_median() {
    assert_eq!(sort(&vec![]), Vec::<u64>::new());
    assert_eq!(sort(&vec![3, 1, 2, 1, u64::MAX, 0]), vec![0, 1, 1, 2, 3, u64::MAX]);
    assert_eq!(median(&vec![5]), 5);
    assert_eq!(median(&vec![9, 1]), 9);
    assert_eq!(median(&vec![9, 1, 5]), 5);
    assert_eq!(median(&vec![4, 3, 2, 1]), 3);
    assert_eq!(median(&vec![7, 7, 1, 100, 7]), 7);
}

#[test]
fn network_offset_is_by_the_median() {
    assert_eq!(network_offset(&vec![], 100), None);
    assert_eq!(network_offset(&vec![110], 100), Some(10));
    assert_eq!(network_offset(&vec![90, 1000, 95], 100), Some(-5));
    assert_eq!(network_offset(&vec![0, u64::MAX], 1), Some(u64::MAX as i128 - 1));
}

#[test]
fn only_the_unresponsive_are_punished() {
    let peer = |s: &str| PeerAddress(s.to_string());
    let calm = PeerStats { punished_until: 0, info: None };
    let long = PeerStats { punished_until: 1_000_000, info: Some(PeerInfo { height: 1, power: 1 }) };
    let mut peers = vec![(peer("a"), calm), (peer("b"), calm), (peer("c"), long), (peer("d"), long)];
    let failed = vec![peer("b"), peer("c"), peer("x")];
    assert!(is_among(&failed, &peer("b")));
    assert!(!is_among(&failed, &peer("a")));
    assert!(!is_among(&vec![], &peer("a")));
    punish_unresponsive(&mut peers, &failed, 50);
    assert_eq!(NO_RESPONSE_PUNISH, 600);
    assert_eq!(
        peers,
        vec![
            (peer("a"), calm),
            (peer("b"), PeerStats { punished_until: 650, info: None }),
            (peer("c"), long),
            (peer("d"), long),
        ]
    );
}

#[test]
fn the_puzzle_shows_where_the_nonce_goes() {
    let block = with_nonce(&get_genesis_block(), 0x1122334455667788);
    let puzzle = puzzle_of(&block, &[0xab, 0x01]);
    assert_eq!(puzzle.key, "ab01");
    let header = encode_header(&block.header);
    assert_eq!(puzzle.blob, hex::encode(&header));
    assert_eq!((puzzle.offset, puzzle.size), (80, 8));
    assert_eq!((NONCE_OFFSET, NONCE_SIZE), (80, 8));
    assert_eq!(puzzle.target, block.header.proof_of_work.target);
    assert_eq!(&header[puzzle.offset..puzzle.offset + puzzle.size], &0x1122334455667788u64.to_le_bytes());
    // a miner writes its nonce into the blob
    let mut blob = hex::decode(&puzzle.blob).unwrap();
    blob[80..88].copy_from_slice(&7u64.to_le_bytes());
    assert_eq!(blob, encode_header(&with_nonce(&block, 7).header));
}

#[test]
fn nonces_are_read_from_hex() {
    assert_eq!(parse_nonce(b"0700000000000000"), Some(7));
    assert_eq!(parse_nonce(b"8877665544332211"), Some(0x1122334455667788));
    assert_eq!(parse_nonce(b"FFffFFffFFffFFff"), Some(u64::MAX));
    assert_eq!(parse_nonce(b"07"), None);
    assert_eq!(parse_nonce(b"070000000000000000"), None);
    assert_eq!(parse_nonce(b"070000000000000"), None);
    assert_eq!(parse_nonce(b"07000000000000zz"), None);
    assert_eq!(parse_nonce(b""), None);
}

#[test]
fn the_miner_solves_its_block() {
    let block = get_genesis_block();
    let idle = Miner { webhook: "w".to_string(), block: None };
    assert_eq!(idle.solution(b"0700000000000000"), None);
    let busy = Miner { webhook: "w".to_string(), block: Some(block.clone()) };
    assert_eq!(busy.solution(b"07"), None);
    let solved = busy.solution(b"0700000000000000").unwrap();
    assert_eq!(solved.header.proof_of_work.nonce, 7);
    assert_eq!(solved, with_nonce(&block, 7));
    assert_eq!(solved.body, block.body);
    assert_eq!(solved.header.parent_hash, block.header.parent_hash);
    assert_eq!(solved.header.block_root, block.header.block_root);
    assert_eq!(solved.header.number, block.header.number);
    assert_eq!(solved.header.proof_of_work.target, block.header.proof_of_work.target);
}
