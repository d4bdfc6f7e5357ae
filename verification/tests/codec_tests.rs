use ledger_core::codec::{
    decode_address, decode_header, decode_tx, encode_address,
    decode_account, decode_block, decode_digests, decode_ops, decode_u64, encode_account,
    encode_block, encode_digests, encode_header, encode_ops, encode_tx, encode_u64, read_tx,
};
use ledger_core::db::WriteOp;
use ledger_core::merkle::MerkleTree;
use ledger_core::types::{
    Account, Address, Block, Header, ProofOfWork, Signature, Transaction, TransactionData,
};

fn header() -> Header {
    Header {
        parent_hash: [7u8; 32],
        number: 0x0102030405060708,
        block_root: [9u8; 32],
        proof_of_work: ProofOfWork { timestamp: 0x0a0b0c0d, target: 0x00ffffff, nonce: 3 },
    }
}

fn all_kinds() -> Vec<Transaction> {
    let data = vec![
        TransactionData::RegularSend { dst: Address::PublicKey([5u8; 32]), amount: 300 },
        TransactionData::RegularSend { dst: Address::Treasury, amount: u64::MAX },
        TransactionData::RegisterValidator { vrf_stuff: 200, amount: 1 },
        TransactionData::CreateContract {
            deposit_withdraw_circuit: [1u8; 32],
            update_circuits: [2u8; 32],
            initial_state: [3u8; 32],
        },
        TransactionData::DepositWithdraw {
            contract_id: [4u8; 32],
            deposit_withdraws: [5u8; 32],
            next_state: [6u8; 32],
            proof: [7u8; 32],
        },
        TransactionData::Update {
            contract_id: [8u8; 32],
            circuit_index: 77,
            next_state: [9u8; 32],
            proof: [10u8; 32],
        },
    ];
    let mut txs = Vec::new();
    for (i, d) in data.into_iter().enumerate() {
        txs.push(Transaction {
            src: if i % 2 == 0 { Address::Treasury } else { Address::PublicKey([i as u8; 32]) },
            nonce: i as u32 + 1,
            data: d,
            fee: 10 * i as u64,
            sig: if i % 3 == 0 { Signature::Unsigned } else { Signature::Signed([i as u8; 64]) },
        });
    }
    txs
}

#[test]
fn u64_is_little_endian() {
    assert_eq!(encode_u64(0x0102030405060708), vec![8, 7, 6, 5, 4, 3, 2, 1]);
    assert_eq!(decode_u64(&[8, 7, 6, 5, 4, 3, 2, 1]), Some(0x0102030405060708));
    assert_eq!(decode_u64(&encode_u64(u64::MAX)), Some(u64::MAX));
    assert_eq!(decode_u64(&[1, 2, 3]), None);
    assert_eq!(decode_u64(&[0; 9]), None);
    assert_eq!(decode_u64(&[]), None);
}

#[test]
fn account_is_balance_then_nonce() {
    let a = Account { balance: 690, nonce: 1 };
    let bytes = encode_account(&a);
    assert_eq!(bytes, vec![0xb2, 0x02, 0, 0, 0, 0, 0, 0, 1, 0, 0, 0]);
    assert_eq!(decode_account(&bytes), Some(a));
    assert_eq!(decode_account(&bytes[..11]), None);
    let mut longer = bytes.clone();
    longer.push(0);
    assert_eq!(decode_account(&longer), None);
}

#[test]
fn header_has_88_bytes_in_field_order() {
    let bytes = encode_header(&header());
    assert_eq!(bytes.len(), 88);
    assert_eq!(&bytes[..32], &[7u8; 32]);
    assert_eq!(&bytes[32..40], &[8, 7, 6, 5, 4, 3, 2, 1]);
    assert_eq!(&bytes[40..72], &[9u8; 32]);
    assert_eq!(&bytes[72..76], &[0x0d, 0x0c, 0x0b, 0x0a]);
    assert_eq!(&bytes[76..80], &[0xff, 0xff, 0xff, 0x00]);
    assert_eq!(&bytes[80..88], &[3, 0, 0, 0, 0, 0, 0, 0]);
}

#[test]
fn transaction_bytes_carry_tags() {
    let tx = Transaction {
        src: Address::Treasury,
        nonce: 1,
        data: TransactionData::RegularSend { dst: Address::PublicKey([5u8; 32]), amount: 1000 },
        fee: 0,
        sig: Signature::Unsigned,
    };
    let bytes = encode_tx(&tx);
    let mut expected = vec![0u8, 1, 0, 0, 0, 0, 1];
    expected.extend([5u8; 32]);
    expected.extend([0xe8, 0x03, 0, 0, 0, 0, 0, 0]);
    expected.extend([0u8; 8]);
    expected.push(0);
    assert_eq!(bytes, expected);
}

#[test]
fn every_kind_of_transaction_reads_back() {
    for tx in all_kinds() {
        let bytes = encode_tx(&tx);
        assert_eq!(read_tx(&bytes, 0), Some((tx, bytes.len())));
        assert_eq!(read_tx(&bytes[..bytes.len() - 1], 0), None);
        let mut shifted = vec![0xee];
        shifted.extend(&bytes);
        assert_eq!(read_tx(&shifted, 1), Some((tx, shifted.len())));
    }
    assert_eq!(read_tx(&[9], 0), None);
    assert_eq!(read_tx(&[], 0), None);
}

#[test]
fn unknown_tags_are_refused() {
    let tx = all_kinds()[0];
    let mut bytes = encode_tx(&tx);
    bytes[0] = 2; // no such address
    assert_eq!(read_tx(&bytes, 0), None);
    let mut bytes = encode_tx(&tx);
    bytes[5] = 5; // no such kind of transaction
    assert_eq!(read_tx(&bytes, 0), None);
    let mut bytes = encode_tx(&tx);
    let last = bytes.len() - 1;
    bytes[last] = 2; // no such signature
    assert_eq!(read_tx(&bytes, 0), None);
}

#[test]
fn block_roundtrip() {
    let block = Block { header: header(), body: all_kinds() };
    let bytes = encode_block(&block);
    assert_eq!(decode_block(&bytes), Some(block.clone()));
    assert_eq!(encode_block(&decode_block(&bytes).unwrap()), bytes);
    assert_eq!(&bytes[88..96], &[6, 0, 0, 0, 0, 0, 0, 0]);
    assert_eq!(decode_block(&bytes[..bytes.len() - 1]), None);
    let mut longer = bytes.clone();
    longer.push(0);
    assert_eq!(decode_block(&longer), None);
    let empty = Block { header: header(), body: vec![] };
    assert_eq!(encode_block(&empty).len(), 96);
    assert_eq!(decode_block(&encode_block(&empty)), Some(empty));
}

#[test]
fn block_with_a_count_that_lies_is_refused() {
    let block = Block { header: header(), body: all_kinds() };
    let mut bytes = encode_block(&block);
    bytes[88] = 7;
    assert_eq!(decode_block(&bytes), None);
    bytes[88] = 5;
    assert_eq!(decode_block(&bytes), None);
    for b in &mut bytes[88..96] {
        *b = 0xff;
    }
    assert_eq!(decode_block(&bytes), None);
}

#[test]
fn ops_roundtrip() {
    let ops = vec![
        WriteOp::Put(b"height".to_vec(), vec![1, 0, 0, 0, 0, 0, 0, 0]),
        WriteOp::Remove(b"power_0000000000".to_vec()),
        WriteOp::Put(vec![], vec![]),
    ];
    let bytes = encode_ops(&ops);
    let mut expected = vec![3u8, 0, 0, 0, 0, 0, 0, 0];
    expected.push(1);
    expected.extend([6u8, 0, 0, 0, 0, 0, 0, 0]);
    expected.extend(b"height");
    expected.extend([8u8, 0, 0, 0, 0, 0, 0, 0]);
    expected.extend([1u8, 0, 0, 0, 0, 0, 0, 0]);
    expected.push(0);
    expected.extend([16u8, 0, 0, 0, 0, 0, 0, 0]);
    expected.extend(b"power_0000000000");
    expected.push(1);
    expected.extend([0u8; 16]);
    assert_eq!(bytes, expected);
    assert_eq!(decode_ops(&bytes), Some(ops));
    assert_eq!(decode_ops(&bytes[..bytes.len() - 1]), None);
    assert_eq!(decode_ops(&encode_ops(&vec![])), Some(vec![]));
    assert_eq!(decode_ops(&[1, 0, 0, 0, 0, 0, 0, 0, 0, 0xff, 0xff, 0xff, 0xff, 0xff, 0xff, 0xff, 0xff]), None);
}

#[test]
fn digests_roundtrip() {
    let ds = vec![[1u8; 32], [2u8; 32]];
    let bytes = encode_digests(&ds);
    assert_eq!(bytes.len(), 8 + 64);
    assert_eq!(decode_digests(&bytes), Some(ds));
    assert_eq!(decode_digests(&bytes[..71]), None);
}

#[test]
fn merkle_tree_roundtrip() {
    let tree = MerkleTree::build(vec![[1u8; 32], [2u8; 32], [3u8; 32]]);
    let bytes = tree.encode();
    assert_eq!(bytes.len(), 8 + 32 * 6);
    assert_eq!(MerkleTree::decode(&bytes), Some(tree));
    assert_eq!(MerkleTree::decode(&[0u8; 8]), None);
    assert_eq!(MerkleTree::decode(&[1u8; 8]), None);
}

#[test]
fn headers_transactions_and_addresses_decode_whole() {
    let bytes = encode_header(&header());
    assert_eq!(decode_header(&bytes), Some(header()));
    assert_eq!(decode_header(&bytes[..87]), None);
    let mut longer = bytes.clone();
    longer.push(0);
    assert_eq!(decode_header(&longer), None);
    for tx in all_kinds() {
        let bytes = encode_tx(&tx);
        assert_eq!(decode_tx(&bytes), Some(tx));
        let mut longer = bytes.clone();
        longer.push(0);
        assert_eq!(decode_tx(&longer), None);
        assert_eq!(decode_tx(&bytes[..bytes.len() - 1]), None);
    }
    assert_eq!(encode_address(&Address::Treasury), vec![0]);
    assert_eq!(decode_address(&[0]), Some(Address::Treasury));
    assert_eq!(decode_address(&[0, 0]), None);
    assert_eq!(decode_address(&[]), None);
    let key = Address::PublicKey([6u8; 32]);
    let bytes = encode_address(&key);
    assert_eq!(bytes.len(), 33);
    assert_eq!(bytes[0], 1);
    assert_eq!(decode_address(&bytes), Some(key));
    assert_eq!(decode_address(&bytes[..32]), None);
    assert_eq!(decode_address(&[2; 33]), None);
}
