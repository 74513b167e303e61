use znx::types::{OutPoint, Transaction, TxIn};

#[test]
fn coinbase_input_round_trips_height_and_extra_nonce() {
    let input = TxIn::coinbase(42, 7);
    assert!(input.is_coinbase_marker());
    assert_eq!(&input.signature[0..8], &42u64.to_le_bytes());
    assert_eq!(&input.signature[8..16], &7u64.to_le_bytes());
}

#[test]
fn transaction_is_coinbase_only_for_the_synthetic_input() {
    let coinbase = Transaction::new_coinbase("znx-devnet-1".to_string(), 1, 0, vec![]);
    assert!(coinbase.is_coinbase());

    let regular = Transaction {
        chain_id: "znx-devnet-1".to_string(),
        inputs: vec![TxIn {
            prev_out: OutPoint { txid: [9u8; 32], vout: 0 },
            public_key: [0u8; 32],
            signature: [0u8; 64],
        }],
        outputs: vec![],
    };
    assert!(!regular.is_coinbase());
}

#[test]
fn a_coinbase_input_holds_nothing_but_its_numbers() {
    let input = TxIn::coinbase(u64::MAX, 0);
    assert_eq!(input.prev_out, OutPoint { txid: [0u8; 32], vout: u32::MAX });
    assert_eq!(input.public_key, [0u8; 32]);
    assert_eq!(input.signature[..8], [0xffu8; 8]);
    assert_eq!(input.signature[8..], [0u8; 56]);
}

#[test]
fn two_markers_make_no_coinbase() {
    let tx = Transaction {
        chain_id: "znx-devnet-1".to_string(),
        inputs: vec![TxIn::coinbase(1, 0), TxIn::coinbase(1, 1)],
        outputs: vec![],
    };
    assert!(!tx.is_coinbase());
    assert_eq!(tx.duplicate(), tx);
}
