use znx::codec::{signing_bytes, txid};
use znx::crypto::{hash, Address, Keypair};
use znx::state::{
    apply_coinbase, apply_transaction, ErrorText, MemoryStateStore, OverlayStore, StateError,
    StateStore,
};
use znx::types::{OutPoint, Transaction, TxIn, TxOut};

const CHAIN_ID: &str = "znx-devnet-1";

fn seed_spendable(store: &mut MemoryStateStore, owner: Address, amount: u128) -> OutPoint {
    let outpoint = OutPoint { txid: hash(&owner.0), vout: 0 };
    store.seed_utxo(outpoint, TxOut { amount, pubkey_hash: owner });
    outpoint
}

fn signed_transfer(store: &MemoryStateStore, sender: &Keypair, spend: OutPoint, outputs: Vec<TxOut>) -> Transaction {
    let mut tx = Transaction {
        chain_id: CHAIN_ID.to_string(),
        inputs: vec![TxIn { prev_out: spend, public_key: sender.public_key().to_bytes(), signature: [0u8; 64] }],
        outputs,
    };
    let _ = store;
    let message = signing_bytes(&tx);
    let signature = sender.sign(&message);
    tx.inputs[0].signature = signature.to_bytes();
    tx
}

#[test]
fn transfer_spends_input_and_creates_outputs() {
    let mut store = MemoryStateStore::new();
    let sender = Keypair::generate();
    let receiver = Keypair::generate();
    let spend = seed_spendable(&mut store, sender.address(), 1_000);

    let tx = signed_transfer(
        &store,
        &sender,
        spend,
        vec![TxOut { amount: 700, pubkey_hash: receiver.address() }, TxOut { amount: 290, pubkey_hash: sender.address() }],
    );
    let applied = apply_transaction(&mut store, &tx, CHAIN_ID).expect("transferencia válida");

    assert_eq!(applied.fee, 10);
    assert_eq!(applied.consumed, vec![(spend, TxOut { amount: 1_000, pubkey_hash: sender.address() })]);
    assert_eq!(store.get_utxo(&spend), None);
    let id = txid(&tx);
    assert_eq!(store.get_utxo(&OutPoint { txid: id, vout: 0 }), Some(TxOut { amount: 700, pubkey_hash: receiver.address() }));
    assert_eq!(store.get_utxo(&OutPoint { txid: id, vout: 1 }), Some(TxOut { amount: 290, pubkey_hash: sender.address() }));
}

#[test]
fn rejects_spending_unknown_outpoint() {
    let mut store = MemoryStateStore::new();
    let sender = Keypair::generate();
    let receiver = Keypair::generate();
    let bogus = OutPoint { txid: [3u8; 32], vout: 0 };

    let tx = signed_transfer(&store, &sender, bogus, vec![TxOut { amount: 100, pubkey_hash: receiver.address() }]);
    let err = apply_transaction(&mut store, &tx, CHAIN_ID).unwrap_err();
    assert_eq!(err, StateError::UnknownOutpoint);
}

#[test]
fn rejects_insufficient_inputs() {
    let mut store = MemoryStateStore::new();
    let sender = Keypair::generate();
    let receiver = Keypair::generate();
    let spend = seed_spendable(&mut store, sender.address(), 50);

    let tx = signed_transfer(&store, &sender, spend, vec![TxOut { amount: 100, pubkey_hash: receiver.address() }]);
    let err = apply_transaction(&mut store, &tx, CHAIN_ID).unwrap_err();
    assert_eq!(err, StateError::InsufficientInputs { available: 50, required: 100 });
}

#[test]
fn rejects_wrong_chain_id() {
    let mut store = MemoryStateStore::new();
    let sender = Keypair::generate();
    let receiver = Keypair::generate();
    let spend = seed_spendable(&mut store, sender.address(), 1_000);

    let mut tx = signed_transfer(&store, &sender, spend, vec![TxOut { amount: 100, pubkey_hash: receiver.address() }]);
    tx.chain_id = "znx-mainnet-1".to_string();

    let err = apply_transaction(&mut store, &tx, CHAIN_ID).unwrap_err();
    assert_eq!(err, StateError::WrongChainId { expected: CHAIN_ID.to_string(), found: "znx-mainnet-1".to_string() });
}

#[test]
fn rejects_tampered_output_after_signing() {
    let mut store = MemoryStateStore::new();
    let sender = Keypair::generate();
    let receiver = Keypair::generate();
    let spend = seed_spendable(&mut store, sender.address(), 1_000);

    let mut tx = signed_transfer(&store, &sender, spend, vec![TxOut { amount: 100, pubkey_hash: receiver.address() }]);
    tx.outputs[0].amount = 999;

    let err = apply_transaction(&mut store, &tx, CHAIN_ID).unwrap_err();
    assert_eq!(err, StateError::InvalidSignature);
}

#[test]
fn rejects_signature_from_a_key_that_does_not_own_the_utxo() {
    let mut store = MemoryStateStore::new();
    let real_owner = Keypair::generate();
    let attacker = Keypair::generate();
    let receiver = Keypair::generate();
    let spend = seed_spendable(&mut store, real_owner.address(), 1_000);
    let mut tx = Transaction {
        chain_id: CHAIN_ID.to_string(),
        inputs: vec![TxIn { prev_out: spend, public_key: attacker.public_key().to_bytes(), signature: [0u8; 64] }],
        outputs: vec![TxOut { amount: 100, pubkey_hash: receiver.address() }],
    };
    let signature = attacker.sign(&signing_bytes(&tx));
    tx.inputs[0].signature = signature.to_bytes();

    let err = apply_transaction(&mut store, &tx, CHAIN_ID).unwrap_err();
    assert_eq!(err, StateError::AddressMismatch);
}

#[test]
fn rejects_duplicate_input_within_same_transaction() {
    let mut store = MemoryStateStore::new();
    let sender = Keypair::generate();
    let receiver = Keypair::generate();
    let spend = seed_spendable(&mut store, sender.address(), 1_000);

    let mut tx = Transaction {
        chain_id: CHAIN_ID.to_string(),
        inputs: vec![
            TxIn { prev_out: spend, public_key: sender.public_key().to_bytes(), signature: [0u8; 64] },
            TxIn { prev_out: spend, public_key: sender.public_key().to_bytes(), signature: [0u8; 64] },
        ],
        outputs: vec![TxOut { amount: 100, pubkey_hash: receiver.address() }],
    };
    let signature = sender.sign(&signing_bytes(&tx));
    tx.inputs[0].signature = signature.to_bytes();
    tx.inputs[1].signature = signature.to_bytes();

    let err = apply_transaction(&mut store, &tx, CHAIN_ID).unwrap_err();
    assert_eq!(err, StateError::DuplicateInput);
}

#[test]
fn coinbase_creates_outputs_up_to_the_allowed_total() {
    let mut store = MemoryStateStore::new();
    let miner = Keypair::generate();

    let tx = Transaction::new_coinbase(CHAIN_ID.to_string(), 1, 0, vec![TxOut { amount: 50, pubkey_hash: miner.address() }]);
    apply_coinbase(&mut store, &tx, 1, 50).expect("coinbase dentro del límite");

    let id = txid(&tx);
    assert_eq!(store.get_utxo(&OutPoint { txid: id, vout: 0 }), Some(TxOut { amount: 50, pubkey_hash: miner.address() }));
}

#[test]
fn coinbase_rejects_claiming_more_than_allowed() {
    let mut store = MemoryStateStore::new();
    let miner = Keypair::generate();

    let tx = Transaction::new_coinbase(CHAIN_ID.to_string(), 1, 0, vec![TxOut { amount: 51, pubkey_hash: miner.address() }]);
    let err = apply_coinbase(&mut store, &tx, 1, 50).unwrap_err();
    assert_eq!(err, StateError::CoinbaseOverclaims { claimed: 51, allowed: 50 });
}

#[test]
fn coinbase_rejects_mismatched_height() {
    let mut store = MemoryStateStore::new();
    let miner = Keypair::generate();

    let tx = Transaction::new_coinbase(CHAIN_ID.to_string(), 1, 0, vec![TxOut { amount: 50, pubkey_hash: miner.address() }]);
    let err = apply_coinbase(&mut store, &tx, 2, 50).unwrap_err();
    assert_eq!(err, StateError::WrongCoinbaseHeight { expected: 2, found: 1 });
}

#[test]
fn apply_transaction_rejects_a_transaction_shaped_like_a_coinbase() {
    let mut store = MemoryStateStore::new();
    let miner = Keypair::generate();
    let tx = Transaction::new_coinbase(CHAIN_ID.to_string(), 1, 0, vec![TxOut { amount: 50, pubkey_hash: miner.address() }]);

    let err = apply_transaction(&mut store, &tx, CHAIN_ID).unwrap_err();
    assert_eq!(err, StateError::UnexpectedCoinbase);
}

#[test]
fn apply_coinbase_rejects_a_regular_transaction() {
    let mut store = MemoryStateStore::new();
    let sender = Keypair::generate();
    let receiver = Keypair::generate();
    let spend = seed_spendable(&mut store, sender.address(), 1_000);
    let tx = signed_transfer(&store, &sender, spend, vec![TxOut { amount: 100, pubkey_hash: receiver.address() }]);

    let err = apply_coinbase(&mut store, &tx, 1, 100).unwrap_err();
    assert_eq!(err, StateError::NotCoinbase);
}

#[test]
fn overlay_store_does_not_mutate_the_base_until_diff_is_extracted() {
    let mut base = MemoryStateStore::new();
    let sender = Keypair::generate();
    let receiver = Keypair::generate();
    let spend = seed_spendable(&mut base, sender.address(), 1_000);

    let mut overlay = OverlayStore::new(&base);
    let tx = signed_transfer(&base, &sender, spend, vec![TxOut { amount: 900, pubkey_hash: receiver.address() }]);
    apply_transaction(&mut overlay, &tx, CHAIN_ID).expect("válida contra el overlay");
    assert_eq!(overlay.get_utxo(&spend), None);
    assert_eq!(base.get_utxo(&spend), Some(TxOut { amount: 1_000, pubkey_hash: sender.address() }));

    let (spent, created) = overlay.into_diff();
    base.apply_changes(spent, created).expect("aplica sin error en MemoryStateStore");
    assert_eq!(base.get_utxo(&spend), None);
}

#[test]
fn each_fault_of_a_spend_has_its_error() {
    let mut store = MemoryStateStore::new();
    let sender = Keypair::generate();
    let spend = seed_spendable(&mut store, sender.address(), 1_000);
    let pay = |amount: u128| TxOut { amount, pubkey_hash: sender.address() };

    let none = Transaction { chain_id: CHAIN_ID.to_string(), inputs: vec![], outputs: vec![pay(1)] };
    assert_eq!(apply_transaction(&mut store, &none, CHAIN_ID), Err(StateError::NoInputs));

    let mut no_key = signed_transfer(&store, &sender, spend, vec![pay(1)]);
    no_key.inputs[0].public_key = [0u8; 32];
    no_key.inputs[0].public_key[0] = 2;
    assert_eq!(apply_transaction(&mut store, &no_key, CHAIN_ID), Err(StateError::InvalidPublicKey));

    let overflow = signed_transfer(&store, &sender, spend, vec![pay(u128::MAX), pay(1)]);
    assert_eq!(apply_transaction(&mut store, &overflow, CHAIN_ID), Err(StateError::Overflow));

    assert_eq!(store.get_utxo(&spend), Some(pay(1_000)));
}

#[test]
fn an_output_is_spent_once() {
    let mut store = MemoryStateStore::new();
    let sender = Keypair::generate();
    let spend = seed_spendable(&mut store, sender.address(), 10);
    let tx = signed_transfer(&store, &sender, spend, vec![TxOut { amount: 4, pubkey_hash: sender.address() }]);
    assert_eq!(apply_transaction(&mut store, &tx, CHAIN_ID).unwrap().fee, 6);
    assert_eq!(apply_transaction(&mut store, &tx, CHAIN_ID), Err(StateError::UnknownOutpoint));
}

#[test]
fn a_coinbase_may_not_add_up_past_the_largest_amount() {
    let mut store = MemoryStateStore::new();
    let miner = Keypair::generate().address();
    let outputs = vec![TxOut { amount: u128::MAX, pubkey_hash: miner }, TxOut { amount: 1, pubkey_hash: miner }];
    let tx = Transaction::new_coinbase(CHAIN_ID.to_string(), 1, 0, outputs);
    assert_eq!(apply_coinbase(&mut store, &tx, 1, u128::MAX), Err(StateError::Overflow));
}

#[test]
fn a_layer_lets_go_of_what_it_made_and_spent() {
    let mut base = MemoryStateStore::new();
    let sender = Keypair::generate();
    let spend = seed_spendable(&mut base, sender.address(), 10);
    let mut overlay = OverlayStore::new(&base);
    let first = signed_transfer(&base, &sender, spend, vec![TxOut { amount: 9, pubkey_hash: sender.address() }]);
    apply_transaction(&mut overlay, &first, CHAIN_ID).unwrap();
    let middle = OutPoint { txid: txid(&first), vout: 0 };
    let second = signed_transfer(&base, &sender, middle, vec![TxOut { amount: 8, pubkey_hash: sender.address() }]);
    apply_transaction(&mut overlay, &second, CHAIN_ID).unwrap();
    let (spent, created) = overlay.into_diff();
    let last = OutPoint { txid: txid(&second), vout: 0 };
    assert!(spent.contains(&spend));
    assert!(!created.iter().any(|(op, _)| *op == middle));
    assert_eq!(created, vec![(last, TxOut { amount: 8, pubkey_hash: sender.address() })]);
}

#[test]
fn state_errors_have_their_texts() {
    assert_eq!(
        StateError::CoinbaseOverclaims { claimed: 51, allowed: 50 }.describe(),
        "la coinbase reclama más de lo permitido: reclama 51, el máximo permitido es 50"
    );
    assert_eq!(
        StateError::WrongCoinbaseHeight { expected: 2, found: 1 }.describe(),
        "altura codificada en el input de coinbase no coincide: se esperaba 2, se encontró 1"
    );
    assert_eq!(
        StateError::Store("x".to_string()).describe(),
        "error del store subyacente al confirmar los cambios: x"
    );
}

fn signed_by_all(senders: &[&Keypair], spends: &[OutPoint], outputs: Vec<TxOut>) -> Transaction {
    let mut tx = Transaction {
        chain_id: CHAIN_ID.to_string(),
        inputs: senders
            .iter()
            .zip(spends)
            .map(|(k, op)| TxIn { prev_out: *op, public_key: k.public_key().to_bytes(), signature: [0u8; 64] })
            .collect(),
        outputs,
    };
    let message = signing_bytes(&tx);
    for (i, k) in senders.iter().enumerate() {
        tx.inputs[i].signature = k.sign(&message).to_bytes();
    }
    tx
}

#[test]
fn every_outpoint_is_looked_up_before_any_signature_is_checked() {
    let mut store = MemoryStateStore::new();
    let sender = Keypair::from_secret_bytes([1u8; 32]);
    let known = seed_spendable(&mut store, sender.address(), 10);
    let unknown = OutPoint { txid: [3u8; 32], vout: 0 };
    let mut tx = signed_by_all(&[&sender, &sender], &[known, unknown], vec![]);
    tx.inputs[0].signature[0] ^= 1;
    assert_eq!(apply_transaction(&mut store, &tx, CHAIN_ID), Err(StateError::UnknownOutpoint));
    assert!(store.get_utxo(&known).is_some());
}

#[test]
fn every_signature_is_checked_before_anything_is_summed() {
    let mut store = MemoryStateStore::new();
    let sender = Keypair::from_secret_bytes([1u8; 32]);
    let spends: Vec<OutPoint> = (0..3).map(|vout| OutPoint { txid: [4u8; 32], vout }).collect();
    for op in &spends {
        store.seed_utxo(*op, TxOut { amount: u128::MAX, pubkey_hash: sender.address() });
    }
    let mut tx = signed_by_all(&[&sender, &sender, &sender], &spends, vec![]);
    assert_eq!(apply_transaction(&mut store, &tx, CHAIN_ID), Err(StateError::Overflow));
    tx.inputs[2].signature[0] ^= 1;
    assert_eq!(apply_transaction(&mut store, &tx, CHAIN_ID), Err(StateError::InvalidSignature));
}
