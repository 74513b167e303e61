use znx::codec::{
    block_hash, block_header_hash, decode, encode, hash_of, meets_target, pow_hash, signing_bytes,
    tx_root, txid, CodecError,
};
use znx::crypto::{hash, verify_raw, Address, Keypair};
use znx::state::ErrorText;
use znx::types::{Block, BlockHeader, OutPoint, Transaction, TxIn, TxOut};

fn sample_output(addr: Address, amount: u128) -> TxOut {
    TxOut { amount, pubkey_hash: addr }
}

fn sample_transaction() -> Transaction {
    let sender = Keypair::generate();
    let receiver = Keypair::generate();
    Transaction {
        chain_id: "znx-devnet-1".to_string(),
        inputs: vec![TxIn {
            prev_out: OutPoint { txid: [7u8; 32], vout: 0 },
            public_key: sender.public_key().to_bytes(),
            signature: [0u8; 64],
        }],
        outputs: vec![sample_output(receiver.address(), 1_000_000)],
    }
}

#[test]
fn transaction_roundtrip() {
    let tx = sample_transaction();
    let bytes = encode(&tx);
    let decoded: Transaction = decode(&bytes).expect("decodifica");
    assert_eq!(tx, decoded);
}

#[test]
fn encoding_is_byte_stable_across_calls() {
    let tx = sample_transaction();
    let bytes1 = encode(&tx);
    let bytes2 = encode(&tx);
    assert_eq!(bytes1, bytes2);
}

#[test]
fn hash_of_is_deterministic_and_sensitive_to_content() {
    let tx1 = sample_transaction();
    let mut tx2 = tx1.clone();
    tx2.outputs[0].amount += 1;

    assert_eq!(hash_of(&tx1), hash_of(&tx1));
    assert_ne!(hash_of(&tx1), hash_of(&tx2));
}

#[test]
fn sign_and_verify_transaction_end_to_end() {
    let sender = Keypair::generate();
    let receiver = Keypair::generate();
    let mut tx = Transaction {
        chain_id: "znx-devnet-1".to_string(),
        inputs: vec![TxIn {
            prev_out: OutPoint { txid: [1u8; 32], vout: 0 },
            public_key: sender.public_key().to_bytes(),
            signature: [0u8; 64],
        }],
        outputs: vec![sample_output(receiver.address(), 500)],
    };

    let message = signing_bytes(&tx);
    let signature = sender.sign(&message);
    tx.inputs[0].signature = signature.to_bytes();
    let unsigned_message = signing_bytes(&tx);
    verify_raw(&tx.inputs[0].public_key, &unsigned_message, &tx.inputs[0].signature).expect("firma válida");
}

#[test]
fn tampered_output_fails_verification() {
    let sender = Keypair::generate();
    let receiver = Keypair::generate();
    let mut tx = Transaction {
        chain_id: "znx-devnet-1".to_string(),
        inputs: vec![TxIn {
            prev_out: OutPoint { txid: [1u8; 32], vout: 0 },
            public_key: sender.public_key().to_bytes(),
            signature: [0u8; 64],
        }],
        outputs: vec![sample_output(receiver.address(), 500)],
    };
    let signature = sender.sign(&signing_bytes(&tx));
    tx.inputs[0].signature = signature.to_bytes();

    let mut tampered = tx.clone();
    tampered.outputs[0].amount = 999_999_999;

    assert!(verify_raw(&tampered.inputs[0].public_key, &signing_bytes(&tampered), &tampered.inputs[0].signature).is_err());
}

#[test]
fn tx_root_changes_with_contents_and_is_stable_for_same_set() {
    let tx = sample_transaction();

    let root_empty = tx_root(&[]);
    let root_one = tx_root(std::slice::from_ref(&tx));
    let root_one_again = tx_root(std::slice::from_ref(&tx));

    assert_ne!(root_empty, root_one);
    assert_eq!(root_one, root_one_again);
}

#[test]
fn tx_root_handles_odd_count_by_duplicating_last() {
    let tx1 = sample_transaction();
    let tx2 = sample_transaction();
    let tx3 = sample_transaction();
    let root_three = tx_root(&[tx1.clone(), tx2.clone(), tx3.clone()]);
    let root_two = tx_root(&[tx1, tx2]);
    assert_ne!(root_three, root_two);
}

#[test]
fn meets_target_compares_as_big_endian_256_bit_integers() {
    let mut low_hash = [0u8; 32];
    low_hash[31] = 1;
    let mut high_target = [0u8; 32];
    high_target[0] = 0xff;

    assert!(meets_target(&low_hash, &high_target));
    assert!(!meets_target(&high_target, &low_hash));

    let equal = [5u8; 32];
    assert!(meets_target(&equal, &equal));
}

fn fixed_transaction(signature: [u8; 64]) -> Transaction {
    Transaction {
        chain_id: "znx".to_string(),
        inputs: vec![TxIn {
            prev_out: OutPoint { txid: [1u8; 32], vout: 258 },
            public_key: [2u8; 32],
            signature,
        }],
        outputs: vec![TxOut { amount: 1, pubkey_hash: Address([3u8; 20]) }],
    }
}

#[test]
fn the_encoding_is_counts_and_little_endian_numbers() {
    let mut expected: Vec<u8> = vec![3, 0, 0, 0];
    expected.extend_from_slice(b"znx");
    expected.extend_from_slice(&[1, 0, 0, 0]);
    expected.extend_from_slice(&[1u8; 32]);
    expected.extend_from_slice(&[2, 1, 0, 0]);
    expected.extend_from_slice(&[2u8; 32]);
    expected.extend_from_slice(&[9u8; 64]);
    expected.extend_from_slice(&[1, 0, 0, 0]);
    expected.extend_from_slice(&1u128.to_le_bytes());
    expected.extend_from_slice(&[3u8; 20]);
    assert_eq!(encode(&fixed_transaction([9u8; 64])), expected);
}

#[test]
fn a_block_survives_encoding() {
    let block = Block {
        header: BlockHeader {
            height: 7,
            parent_hash: [1u8; 32],
            tx_root: [2u8; 32],
            timestamp: 99,
            target: [3u8; 32],
            pow_nonce: 12,
        },
        transactions: vec![fixed_transaction([0u8; 64]), sample_transaction()],
    };
    assert_eq!(decode::<Block>(&encode(&block)), Ok(block));
}

#[test]
fn bytes_that_are_no_encoding_are_refused() {
    let bytes = encode(&fixed_transaction([0u8; 64]));
    let refused = |text: &str| CodecError::Borsh(text.to_string());
    let short = refused("Unexpected length of input");
    assert_eq!(decode::<Transaction>(&bytes[..bytes.len() - 1]), Err(short.clone()));
    let mut longer = bytes.clone();
    longer.push(0);
    assert_eq!(decode::<Transaction>(&longer), Err(refused("Not all bytes read")));
    let mut not_text = bytes.clone();
    not_text[4] = 0xff;
    let no_text = refused("invalid utf-8 sequence of 1 bytes from index 0");
    assert_eq!(decode::<Transaction>(&not_text), Err(no_text.clone()));
    assert_eq!(decode::<Transaction>(&[]), Err(short.clone()));
    assert_eq!(decode::<Block>(&[1, 2, 3]), Err(short.clone()));
    assert_eq!(decode::<TxOut>(&[0u8; 37]), Err(refused("Not all bytes read")));
    assert_eq!(decode::<Vec<(OutPoint, TxOut)>>(&[1, 0, 0, 0]), Err(short));
    assert_eq!(
        no_text.describe(),
        "error de (de)serialización borsh: invalid utf-8 sequence of 1 bytes from index 0"
    );
}

#[test]
fn what_is_signed_leaves_signatures_out() {
    let unsigned = fixed_transaction([0u8; 64]);
    let signed = fixed_transaction([5u8; 64]);
    assert_eq!(signing_bytes(&unsigned), signing_bytes(&signed));
    assert_ne!(txid(&unsigned), txid(&signed));
    let mut other_key = fixed_transaction([0u8; 64]);
    other_key.inputs[0].public_key = [4u8; 32];
    assert_ne!(signing_bytes(&unsigned), signing_bytes(&other_key));
}

#[test]
fn an_odd_layer_counts_its_last_node_twice() {
    let txs = vec![fixed_transaction([1u8; 64]), fixed_transaction([2u8; 64]), fixed_transaction([3u8; 64])];
    let doubled = vec![txs[0].clone(), txs[1].clone(), txs[2].clone(), txs[2].clone()];
    assert_eq!(tx_root(&txs), tx_root(&doubled));
    let mut pair = txid(&txs[0]).to_vec();
    pair.extend_from_slice(&txid(&txs[1]));
    assert_eq!(tx_root(&txs[..2]), hash(&pair));
    assert_eq!(tx_root(&txs[..1]), txid(&txs[0]));
    assert_eq!(tx_root(&[]), hash(&[]));
}

#[test]
fn the_id_of_a_block_is_the_hash_of_its_header() {
    let header = BlockHeader {
        height: 1,
        parent_hash: [0u8; 32],
        tx_root: [0u8; 32],
        timestamp: 2,
        target: [0xffu8; 32],
        pow_nonce: 3,
    };
    let block = Block { header, transactions: vec![] };
    let mut bytes = 1u64.to_le_bytes().to_vec();
    bytes.extend_from_slice(&[0u8; 64]);
    bytes.extend_from_slice(&2u64.to_le_bytes());
    bytes.extend_from_slice(&[0xffu8; 32]);
    bytes.extend_from_slice(&3u64.to_le_bytes());
    assert_eq!(block_hash(&block), hash(&bytes));
    assert_eq!(block_header_hash(&header), hash(&bytes));
    assert_eq!(pow_hash(&header), hash(&bytes));
}
