use znx::codec::{block_hash, txid};
use znx::crypto::{Address, CryptoError, Keypair};
use znx::node::MiningInfo;
use znx::rpc::{
    assemble_transaction, block_to_result, decode_hex_array, hash_text, mining_info_to_result,
    parse_address, parse_transaction, parse_txid, parse_unspent, transaction_params,
    transaction_to_result, unspent_to_result, RpcFault, UnspentOutput,
};
use znx::types::{Block, BlockHeader, OutPoint, Transaction, TxIn, TxOut};

fn sample() -> Transaction {
    Transaction {
        chain_id: "znx-test-1".to_string(),
        inputs: vec![TxIn {
            prev_out: OutPoint { txid: [0x0au8; 32], vout: 3 },
            public_key: [0xbcu8; 32],
            signature: [0x01u8; 64],
        }],
        outputs: vec![
            TxOut { amount: u128::MAX, pubkey_hash: Address([5u8; 20]) },
            TxOut { amount: 0, pubkey_hash: Address([6u8; 20]) },
        ],
    }
}

fn refused(message: &str) -> Result<Transaction, RpcFault> {
    Err(RpcFault::InvalidParams(message.to_string()))
}

#[test]
fn a_transaction_is_handed_in_as_it_was_built() {
    let params = transaction_params(&sample());
    assert_eq!(params.inputs[0].prev_txid, "0a".repeat(32));
    assert_eq!(params.inputs[0].public_key, "bc".repeat(32));
    assert_eq!(params.outputs[0].amount, "340282366920938463463374607431768211455");
    assert_eq!(params.outputs[1].pubkey_hash, Address([6u8; 20]).to_bech32());
    assert_eq!(parse_transaction(params), Ok(sample()));
}

#[test]
fn each_fault_of_a_call_is_named() {
    let mut params = transaction_params(&sample());
    params.inputs[0].prev_txid = "xx".to_string();
    assert_eq!(parse_transaction(params), refused("`prev_txid` no es hex válido"));

    let mut params = transaction_params(&sample());
    params.inputs[0].public_key = "00".to_string();
    assert_eq!(parse_transaction(params), refused("`public_key` tiene que ser de 32 bytes"));

    let mut params = transaction_params(&sample());
    params.inputs[0].signature = "00".repeat(63);
    assert_eq!(parse_transaction(params), refused("`signature` tiene que ser de 64 bytes"));

    let mut params = transaction_params(&sample());
    params.outputs[1].amount = "-1".to_string();
    assert_eq!(parse_transaction(params), refused("`amount` no es un u128 válido"));

    let params = transaction_params(&sample());
    let addresses = vec![
        Ok(Address([5u8; 20])),
        Err(CryptoError::UnexpectedHrp { expected: "znx".to_string(), found: "bc".to_string() }),
    ];
    assert_eq!(
        assemble_transaction(params, &addresses),
        refused("prefijo de dirección inesperado: se esperaba 'znx', se encontró 'bc'")
    );
    assert!(matches!(parse_address("znx1"), Err(RpcFault::InvalidParams(_))));
    let owner = Keypair::generate().address();
    assert_eq!(parse_address(&owner.to_bech32()), Ok(owner));
    assert_eq!(decode_hex_array::<2>("hash", "Ab01"), Ok([0xab, 1]));
}

#[test]
fn blocks_and_transactions_are_written_as_text() {
    let tx = sample();
    let result = transaction_to_result(&tx);
    assert_eq!(result.txid, hex::encode(txid(&tx)));
    assert!(!result.is_coinbase);
    assert_eq!(result.inputs, transaction_params(&tx).inputs);
    assert_eq!(result.outputs, transaction_params(&tx).outputs);

    let coinbase = Transaction::new_coinbase("znx-test-1".to_string(), 4, 0, vec![]);
    let block = Block {
        header: BlockHeader {
            height: 4,
            parent_hash: [1u8; 32],
            tx_root: [2u8; 32],
            timestamp: 99,
            target: [3u8; 32],
            pow_nonce: 7,
        },
        transactions: vec![coinbase, tx],
    };
    let result = block_to_result(&block);
    assert_eq!(result.height, 4);
    assert_eq!(result.hash, hex::encode(block_hash(&block)));
    assert_eq!(result.parent_hash, "01".repeat(32));
    assert_eq!(result.tx_root, "02".repeat(32));
    assert_eq!(result.target, "03".repeat(32));
    assert_eq!(result.pow_nonce, 7);
    assert_eq!(result.timestamp, 99);
    assert!(result.transactions[0].is_coinbase);
    assert_eq!(result.transactions.len(), 2);
}

#[test]
fn unspent_outputs_are_read_back() {
    let list = vec![(OutPoint { txid: [0xaau8; 32], vout: 9 }, TxOut { amount: 12, pubkey_hash: Address([0u8; 20]) })];
    let texts = unspent_to_result(&list);
    assert_eq!(texts, vec![UnspentOutput { txid: "aa".repeat(32), vout: 9, amount: "12".to_string() }]);
    assert_eq!(parse_unspent(&texts[0]), Some((list[0].0, 12)));
    assert_eq!(parse_unspent(&UnspentOutput { txid: "aa".to_string(), vout: 9, amount: "12".to_string() }), None);
    assert_eq!(parse_unspent(&UnspentOutput { txid: "aa".repeat(32), vout: 9, amount: "x".to_string() }), None);
    assert_eq!(parse_txid(&hash_text(&[7u8; 32])), Some([7u8; 32]));
    assert_eq!(parse_txid("zz"), None);
}

#[test]
fn mining_is_described_as_text() {
    let result = mining_info_to_result(MiningInfo {
        chain_id: "znx-test-1".to_string(),
        height: Some(3),
        target: [0xffu8; 32],
        next_subsidy: 50,
    });
    assert_eq!(result.chain_id, "znx-test-1");
    assert_eq!(result.height, Some(3));
    assert_eq!(result.target, "ff".repeat(32));
    assert_eq!(result.next_subsidy, "50");
}
