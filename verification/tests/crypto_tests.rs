use ledger_core::blockchain::keys::{
    account_key, address_bytes, block_key, height_key, merkle_key, power_key, rollback_key,
};
use ledger_core::codec::encode_tx;
use ledger_core::config::genesis::get_genesis_block;
use ledger_core::config::{base_key, GENESIS_TARGET};
use ledger_core::merkle::MerkleTree;
use ledger_core::types::blocks::leaves_of;
use ledger_core::types::hash::{digest, Sha3Hasher};
use ledger_core::types::header::{hash_meets_target, hash_power};
use ledger_core::types::{
    Address, Block, ParseAddressError, Signature, Transaction, TransactionData,
};
use ledger_core::wallet::{signed_send, Wallet};
use sha3::Digest;

fn sha3(data: &[u8]) -> [u8; 32] {
    sha3::Sha3_256::digest(data).into()
}

fn pair(a: &[u8; 32], b: &[u8; 32]) -> [u8; 32] {
    let mut both = a.to_vec();
    both.extend(b);
    sha3(&both)
}

#[test]
fn digest_is_sha3_256() {
    let empty = hex::decode("a7ffc6f8bf1ed76651c14756a061d662f580ff4de43b49fa82d80a4b80f8434a").unwrap();
    assert_eq!(digest(&[]).to_vec(), empty);
    let abc = hex::decode("3a985da74fe225b2045c172d6bd390bd855f086e3e9d525b46bfe24511431532").unwrap();
    assert_eq!(digest(b"abc").to_vec(), abc);
    assert_eq!(<Sha3Hasher as ledger_core::types::hash::Hash>::hash(b"abc"), digest(b"abc"));
}

#[test]
fn merkle_root_of_nothing_is_the_hash_of_nothing() {
    let tree = MerkleTree::build(vec![]);
    assert_eq!(tree.root(), sha3(&[]));
    let block = Block { header: get_genesis_block().header, body: vec![] };
    assert_eq!(block.merkle_tree().root(), sha3(&[]));
    assert_eq!(get_genesis_block().header.block_root, sha3(&[]));
}

#[test]
fn merkle_root_of_one_leaf_is_the_leaf() {
    assert_eq!(MerkleTree::build(vec![[4u8; 32]]).root(), [4u8; 32]);
}

#[test]
fn merkle_levels_pair_up_and_repeat_the_odd_one() {
    let l: Vec<[u8; 32]> = (1u8..=5).map(|i| [i; 32]).collect();
    assert_eq!(MerkleTree::build(l[..2].to_vec()).root(), pair(&l[0], &l[1]));
    let three = pair(&pair(&l[0], &l[1]), &pair(&l[2], &l[2]));
    assert_eq!(MerkleTree::build(l[..3].to_vec()).root(), three);
    let four = pair(&pair(&l[0], &l[1]), &pair(&l[2], &l[3]));
    assert_eq!(MerkleTree::build(l[..4].to_vec()).root(), four);
    let left = pair(&pair(&l[0], &l[1]), &pair(&l[2], &l[3]));
    let right = pair(&pair(&l[4], &l[4]), &pair(&l[4], &l[4]));
    assert_eq!(MerkleTree::build(l.clone()).root(), pair(&left, &right));
}

#[test]
fn leaves_are_hashes_without_the_signature() {
    let unsigned = Transaction {
        src: Address::PublicKey([1u8; 32]),
        nonce: 4,
        data: TransactionData::RegularSend { dst: Address::Treasury, amount: 9 },
        fee: 2,
        sig: Signature::Unsigned,
    };
    let signed = Transaction { sig: Signature::Signed([3u8; 64]), ..unsigned };
    assert_eq!(unsigned.hash(), sha3(&encode_tx(&unsigned)));
    assert_eq!(signed.hash(), unsigned.hash());
    assert_ne!(encode_tx(&signed), encode_tx(&unsigned));
    assert_eq!(leaves_of(&vec![signed, unsigned]), vec![unsigned.hash(), unsigned.hash()]);
    assert_eq!(signed.without_signature(), unsigned);
}

#[test]
fn header_hash_and_pow_hash() {
    let header = get_genesis_block().header;
    let bytes = ledger_core::codec::encode_header(&header);
    assert_eq!(header.hash(), sha3(&bytes));
    let mut keyed = b"key".to_vec();
    keyed.extend(&bytes);
    assert_eq!(header.pow_hash(b"key"), sha3(&keyed));
    assert_ne!(header.pow_hash(b"key"), header.pow_hash(b"other"));
    assert_eq!(header.power(b"key"), hash_power(&header.pow_hash(b"key")));
    assert_eq!(header.meets_target(b"key"), hash_meets_target(&header.pow_hash(b"key"), GENESIS_TARGET));
}

#[test]
fn power_is_the_expected_number_of_attempts() {
    let mut d = [0xffu8; 32];
    assert_eq!(hash_power(&d), 1);
    d[..4].copy_from_slice(&[0, 0, 0, 0]);
    assert_eq!(hash_power(&d), 1 << 32);
    d[..4].copy_from_slice(&[0x00, 0xff, 0xff, 0xff]);
    assert_eq!(hash_power(&d), 256);
    d[..4].copy_from_slice(&[0, 0, 0, 1]);
    assert_eq!(hash_power(&d), 1 << 31);
    d[..4].copy_from_slice(&[0x7f, 0xff, 0xff, 0xff]);
    assert_eq!(hash_power(&d), 2);
    d[..4].copy_from_slice(&[0x80, 0, 0, 0]);
    assert_eq!(hash_power(&d), 1);
}

#[test]
fn a_smaller_hash_is_worth_at_least_as_much() {
    let mut last = u64::MAX;
    for first in 0u8..=255 {
        let mut d = [0u8; 32];
        d[0] = first;
        d[3] = 7;
        let power = hash_power(&d);
        assert!(power <= last);
        assert!(power >= 1);
        last = power;
    }
}

#[test]
fn target_is_met_by_prefixes_up_to_it() {
    let mut d = [0u8; 32];
    d[..4].copy_from_slice(&[0x00, 0xff, 0xff, 0xff]);
    assert!(hash_meets_target(&d, 0x00ffffff));
    assert!(hash_meets_target(&d, 0x01000000));
    assert!(!hash_meets_target(&d, 0x00fffffe));
    d[..4].copy_from_slice(&[0, 0, 0, 0]);
    assert!(hash_meets_target(&d, 0));
    d[..4].copy_from_slice(&[0xff; 4]);
    assert!(hash_meets_target(&d, u32::MAX));
    assert!(!hash_meets_target(&d, u32::MAX - 1));
    // bytes after the prefix do not count
    d[..4].copy_from_slice(&[0, 0, 0, 5]);
    d[4] = 0xff;
    assert!(hash_meets_target(&d, 5));
}

#[test]
fn keys_are_padded_to_ten_digits() {
    assert_eq!(height_key(), b"height".to_vec());
    assert_eq!(block_key(0), b"block_0000000000".to_vec());
    assert_eq!(block_key(7), b"block_0000000007".to_vec());
    assert_eq!(merkle_key(1234567890), b"merkle_1234567890".to_vec());
    assert_eq!(rollback_key(9999999999), b"rollback_9999999999".to_vec());
    assert_eq!(rollback_key(10000000000), b"rollback_10000000000".to_vec());
    assert_eq!(power_key(u64::MAX), b"power_18446744073709551615".to_vec());
    assert_eq!(power_key(42), b"power_0000000042".to_vec());
}

#[test]
fn addresses_are_written_in_hex() {
    assert_eq!(Address::Treasury.to_string(), "Treasury");
    let mut pk = [0u8; 32];
    pk[0] = 0xab;
    pk[1] = 0x01;
    pk[31] = 0xf0;
    let text = Address::PublicKey(pk).to_string();
    assert_eq!(text.len(), 64);
    assert_eq!(&text[..6], "ab0100");
    assert_eq!(&text[62..], "f0");
    assert_eq!(text, hex::encode(pk));
    assert_eq!(address_bytes(&Address::PublicKey(pk)), text.as_bytes().to_vec());
    assert_eq!(account_key(&Address::Treasury), b"account_Treasury".to_vec());
    let mut key = b"account_".to_vec();
    key.extend(text.as_bytes());
    assert_eq!(account_key(&Address::PublicKey(pk)), key);
}

#[test]
fn addresses_read_back() {
    let pk: [u8; 32] = core::array::from_fn(|i| (i * 7 + 3) as u8);
    let a = Address::PublicKey(pk);
    assert_eq!(Address::parse(a.to_string().as_bytes()), Ok(a));
    assert_eq!(a.to_string().parse::<Address>(), Ok(a));
    assert_eq!(Address::parse(b"Treasury"), Err(ParseAddressError::Invalid));
    assert_eq!(Address::parse(b""), Err(ParseAddressError::Invalid));
    assert_eq!(Address::parse(&[b'0'; 63]), Err(ParseAddressError::Invalid));
    assert_eq!(Address::parse(&[b'0'; 65]), Err(ParseAddressError::Invalid));
    assert_eq!(Address::parse(&[b'g'; 64]), Err(ParseAddressError::Invalid));
    // digits of either case are read
    assert_eq!(Address::parse(&[b'A'; 64]), Ok(Address::PublicKey([0xaa; 32])));
    assert_eq!(Address::parse(a.to_string().to_uppercase().as_bytes()), Ok(a));
    assert_eq!(Address::parse(&[b'G'; 64]), Err(ParseAddressError::Invalid));
    assert_eq!(Address::parse(&[b' '; 64]), Err(ParseAddressError::Invalid));
    assert_eq!(Address::parse(&[b'0'; 64]), Ok(Address::PublicKey([0u8; 32])));
    assert_eq!("zz".parse::<Address>(), Err(ParseAddressError::Invalid));
}

#[test]
fn address_same() {
    let a = Address::PublicKey([1u8; 32]);
    let mut other = [1u8; 32];
    other[31] = 2;
    assert!(a.same(&a));
    assert!(Address::Treasury.same(&Address::Treasury));
    assert!(!a.same(&Address::Treasury));
    assert!(!Address::Treasury.same(&a));
    assert!(!a.same(&Address::PublicKey(other)));
}

#[test]
fn uid_is_sender_and_nonce() {
    let tx = Transaction {
        src: Address::Treasury,
        nonce: 5,
        data: TransactionData::RegularSend { dst: Address::Treasury, amount: 1 },
        fee: 0,
        sig: Signature::Unsigned,
    };
    assert_eq!(tx.uid(), "Treasury_5");
    let tx = Transaction { src: Address::PublicKey([0x1f; 32]), nonce: 0, ..tx };
    assert_eq!(tx.uid(), format!("{}_0", "1f".repeat(32)));
    let tx = Transaction { nonce: u32::MAX, ..tx };
    assert_eq!(tx.uid(), format!("{}_4294967295", "1f".repeat(32)));
}

#[test]
fn wallet_address_is_the_ed25519_key_of_the_hashed_seed() {
    let wallet = Wallet::new(b"seed".to_vec());
    let secret = sha3(b"seed");
    let key = ed25519_dalek::SigningKey::from_bytes(&secret);
    assert_eq!(wallet.get_address(), Address::PublicKey(key.verifying_key().to_bytes()));
    assert_ne!(wallet.get_address(), Wallet::new(b"other".to_vec()).get_address());
    assert_ne!(wallet.get_address(), Address::PublicKey(secret));
}

#[test]
fn wallet_signs_what_verifies() {
    let wallet = Wallet::new(b"seed".to_vec()).with_nonce(3);
    let dst = Address::PublicKey([9u8; 32]);
    let tx = wallet.create_transaction(dst, 100, 7);
    assert_eq!(tx.src, wallet.get_address());
    assert_eq!(tx.nonce, 3);
    assert_eq!(tx.fee, 7);
    assert_eq!(tx.data, TransactionData::RegularSend { dst, amount: 100 });
    assert!(tx.verify_signature());
    let secret = sha3(b"seed");
    let key = ed25519_dalek::SigningKey::from_bytes(&secret);
    let expected = ed25519_dalek::Signer::sign(&key, &encode_tx(&tx.without_signature()));
    assert_eq!(tx.sig, Signature::Signed(expected.to_bytes()));
    assert_eq!(tx, signed_send(tx.src, 3, dst, 100, 7, expected.to_bytes()));
    // the first wallet's nonce is 0
    assert_eq!(Wallet::new(b"seed".to_vec()).create_transaction(dst, 1, 1).nonce, 0);
}

#[test]
fn a_changed_transaction_does_not_verify() {
    let wallet = Wallet::new(b"seed".to_vec()).with_nonce(1);
    let tx = wallet.create_transaction(Address::Treasury, 100, 7);
    assert!(tx.verify_signature());
    assert!(!Transaction { fee: 8, ..tx }.verify_signature());
    assert!(!Transaction { nonce: 2, ..tx }.verify_signature());
    assert!(!Transaction { sig: Signature::Unsigned, ..tx }.verify_signature());
    assert!(!Transaction { sig: Signature::Signed([0u8; 64]), ..tx }.verify_signature());
    let thief = Wallet::new(b"thief".to_vec());
    assert!(!Transaction { src: thief.get_address(), ..tx }.verify_signature());
    // bytes that are no public key verify nothing
    assert!(!Transaction { src: Address::PublicKey([0xff; 32]), ..tx }.verify_signature());
    // the treasury needs no signature
    assert!(Transaction { src: Address::Treasury, sig: Signature::Unsigned, ..tx }.verify_signature());
}

#[test]
fn base_key_counts_up() {
    let key = base_key();
    assert_eq!(key[0], 1);
    assert_eq!(key[31], 32);
}
