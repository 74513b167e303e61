use jsonrpsee_http_client::{HttpClient, HttpClientBuilder};
use znx::codec::signing_bytes;
use znx::crypto::{verify_raw, Keypair};
use znx::state::{apply_transaction, ErrorText, MemoryStateStore, StateStore};
use znx::types::{OutPoint, TxOut};
use znx::wallet::{build_transfer, checked_sum, mined_height, node_url, select_utxos, WalletError};

fn http_client(node: &str) -> HttpClient {
    HttpClientBuilder::default().build(node_url(node)).expect("una dirección que sirve")
}

#[test]
fn http_client_adds_scheme_when_missing() {
    let _ = http_client("znx-devnet-node:26657");
}

#[test]
fn http_client_keeps_an_explicit_scheme() {
    let _ = http_client("http://127.0.0.1:26657");
}

fn outpoint(byte: u8) -> OutPoint {
    OutPoint { txid: [byte; 32], vout: 0 }
}

#[test]
fn select_utxos_picks_largest_first_and_stops_once_covered() {
    let utxos = vec![(outpoint(1), 10), (outpoint(2), 50), (outpoint(3), 5)];
    let (selected, total) = select_utxos(utxos, 40).expect("cubre con el más grande solo");
    assert_eq!(selected, vec![outpoint(2)]);
    assert_eq!(total, 50);
}

#[test]
fn select_utxos_combines_several_when_needed() {
    let utxos = vec![(outpoint(1), 10), (outpoint(2), 20), (outpoint(3), 5)];
    let (selected, total) = select_utxos(utxos, 25).expect("combina 20 + 10");
    assert_eq!(selected.len(), 2);
    assert!(selected.contains(&outpoint(1)));
    assert!(selected.contains(&outpoint(2)));
    assert_eq!(total, 30);
}

#[test]
fn select_utxos_none_when_funds_insufficient() {
    let utxos = vec![(outpoint(1), 10), (outpoint(2), 5)];
    assert_eq!(select_utxos(utxos, 100), None);
}

#[test]
fn build_transfer_adds_change_output_to_sender() {
    let from = Keypair::generate();
    let to = Keypair::generate().address();
    let utxos = vec![(outpoint(1), 100)];

    let tx = build_transfer("znx-test-1".to_string(), &from, to, 30, 5, utxos).expect("fondos suficientes");

    assert_eq!(tx.outputs.len(), 2);
    assert_eq!(tx.outputs[0], TxOut { amount: 30, pubkey_hash: to });
    assert_eq!(tx.outputs[1], TxOut { amount: 65, pubkey_hash: from.address() });
    assert_eq!(tx.inputs.len(), 1);
    assert_eq!(tx.inputs[0].prev_out, outpoint(1));
}

#[test]
fn build_transfer_omits_change_output_when_exact() {
    let from = Keypair::generate();
    let to = Keypair::generate().address();
    let utxos = vec![(outpoint(1), 35)];

    let tx = build_transfer("znx-test-1".to_string(), &from, to, 30, 5, utxos).expect("fondos exactos");

    assert_eq!(tx.outputs.len(), 1);
    assert_eq!(tx.outputs[0], TxOut { amount: 30, pubkey_hash: to });
}

#[test]
fn build_transfer_fails_with_insufficient_funds() {
    let from = Keypair::generate();
    let to = Keypair::generate().address();
    let utxos = vec![(outpoint(1), 10)];

    let err = build_transfer("znx-test-1".to_string(), &from, to, 30, 5, utxos).unwrap_err();
    assert!(matches!(err, WalletError::InsufficientFunds { target: 35, available: 10 }));
}

#[test]
fn build_transfer_signature_is_valid_against_the_signing_bytes() {
    let from = Keypair::generate();
    let to = Keypair::generate().address();
    let utxos = vec![(outpoint(1), 100)];

    let tx = build_transfer("znx-test-1".to_string(), &from, to, 30, 0, utxos).expect("fondos suficientes");
    let message = signing_bytes(&tx);
    verify_raw(&tx.inputs[0].public_key, &message, &tx.inputs[0].signature).expect("firma válida");
}

#[test]
fn a_node_is_reached_by_http_where_no_scheme_is_given() {
    assert_eq!(node_url("znx-devnet-node:26657"), "http://znx-devnet-node:26657");
    assert_eq!(node_url("https://nodo"), "https://nodo");
    assert_eq!(node_url("a:/b"), "http://a:/b");
    assert_eq!(node_url("ñ://"), "ñ://");
    assert_eq!(node_url(""), "http://");
}

#[test]
fn equal_outputs_are_chosen_in_their_order() {
    let utxos = vec![(outpoint(1), 5), (outpoint(2), 7), (outpoint(3), 5), (outpoint(4), 7)];
    assert_eq!(select_utxos(utxos.clone(), 24), Some((vec![outpoint(2), outpoint(4), outpoint(1), outpoint(3)], 24)));
    assert_eq!(select_utxos(utxos.clone(), 14), Some((vec![outpoint(2), outpoint(4)], 14)));
    assert_eq!(select_utxos(utxos, 0), Some((vec![], 0)));
}

#[test]
fn a_selection_past_the_largest_number_is_none() {
    let utxos = vec![(outpoint(1), u128::MAX - 1), (outpoint(2), 5)];
    assert_eq!(select_utxos(utxos.clone(), u128::MAX), None);
    assert_eq!(select_utxos(utxos.clone(), u128::MAX - 1), Some((vec![outpoint(1)], u128::MAX - 1)));
    assert_eq!(checked_sum(&utxos), None);
    assert_eq!(checked_sum(&vec![(outpoint(1), 2), (outpoint(2), 5)]), Some(7));
}

#[test]
fn an_amount_and_fee_past_the_largest_number_are_refused() {
    let from = Keypair::generate();
    let to = Keypair::generate().address();
    let r = build_transfer("znx-test-1".to_string(), &from, to, u128::MAX, 1, vec![(outpoint(1), 10)]);
    assert_eq!(r, Err(WalletError::AmountOverflow));
    assert_eq!(WalletError::AmountOverflow.describe(), "amount + fee desborda u128");
    assert_eq!(
        WalletError::InsufficientFunds { target: 35, available: 10 }.describe(),
        "fondos insuficientes: se necesitan 35, hay 10 disponibles"
    );
}

#[test]
fn a_transfer_is_accepted_by_the_ledger() {
    let from = Keypair::generate();
    let to = Keypair::generate().address();
    let mut store = MemoryStateStore::new();
    let mut listed = Vec::new();
    for (byte, amount) in [(1u8, 10u128), (2, 20), (3, 30)] {
        store.seed_utxo(outpoint(byte), TxOut { amount, pubkey_hash: from.address() });
        listed.push((outpoint(byte), amount));
    }
    let tx = build_transfer("znx-test-1".to_string(), &from, to, 33, 2, listed).unwrap();
    let applied = apply_transaction(&mut store, &tx, "znx-test-1").expect("la transferencia vale");
    assert_eq!(applied.fee, 2);
    assert_eq!(store.get_utxo(&outpoint(1)), Some(TxOut { amount: 10, pubkey_hash: from.address() }));
    assert_eq!(store.get_utxo(&outpoint(3)), None);
}

#[test]
fn the_first_block_is_not_mined() {
    assert_eq!(mined_height(None), None);
    assert_eq!(mined_height(Some(0)), None);
    assert_eq!(mined_height(Some(7)), Some(7));
}
