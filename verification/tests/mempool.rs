use znx::codec::{signing_bytes, txid};
use znx::crypto::{hash, Address, Keypair};
use znx::mempool::{Mempool, MempoolError};
use znx::state::{ErrorText, MemoryStateStore};
use znx::types::{OutPoint, Transaction, TxIn, TxOut};

const CHAIN_ID: &str = "znx-devnet-1";

fn store_with(owner: Address, amount: u128) -> (MemoryStateStore, OutPoint) {
    let mut store = MemoryStateStore::new();
    let op = OutPoint { txid: hash(&owner.0), vout: 0 };
    store.seed_utxo(op, TxOut { amount, pubkey_hash: owner });
    (store, op)
}

fn signed_spend(sender: &Keypair, spend: OutPoint, outputs: Vec<TxOut>) -> Transaction {
    let mut tx = Transaction {
        chain_id: CHAIN_ID.to_string(),
        inputs: vec![TxIn { prev_out: spend, public_key: sender.public_key().to_bytes(), signature: [0u8; 64] }],
        outputs,
    };
    let signature = sender.sign(&signing_bytes(&tx));
    tx.inputs[0].signature = signature.to_bytes();
    tx
}

#[test]
fn accepts_a_valid_transaction() {
    let sender = Keypair::generate();
    let receiver = Keypair::generate();
    let (store, spend) = store_with(sender.address(), 1_000);
    let mut mempool = Mempool::new(CHAIN_ID.to_string());

    mempool
        .insert(&store, signed_spend(&sender, spend, vec![TxOut { amount: 900, pubkey_hash: receiver.address() }]))
        .expect("tx válida");
    assert_eq!(mempool.len(), 1);
}

#[test]
fn rejects_tampered_signature() {
    let sender = Keypair::generate();
    let receiver = Keypair::generate();
    let (store, spend) = store_with(sender.address(), 1_000);
    let mut mempool = Mempool::new(CHAIN_ID.to_string());

    let mut tx = signed_spend(&sender, spend, vec![TxOut { amount: 900, pubkey_hash: receiver.address() }]);
    tx.outputs[0].amount = 999;

    assert_eq!(mempool.insert(&store, tx), Err(MempoolError::InvalidSignature));
}

#[test]
fn lib_rejects_wrong_chain_id() {
    let sender = Keypair::generate();
    let receiver = Keypair::generate();
    let (store, spend) = store_with(sender.address(), 1_000);
    let mut mempool = Mempool::new(CHAIN_ID.to_string());

    let mut tx = signed_spend(&sender, spend, vec![TxOut { amount: 900, pubkey_hash: receiver.address() }]);
    tx.chain_id = "znx-mainnet-1".to_string();

    assert_eq!(
        mempool.insert(&store, tx),
        Err(MempoolError::WrongChainId { expected: CHAIN_ID.to_string(), found: "znx-mainnet-1".to_string() })
    );
}

#[test]
fn lib_rejects_spending_unknown_outpoint() {
    let sender = Keypair::generate();
    let receiver = Keypair::generate();
    let store = MemoryStateStore::new();
    let mut mempool = Mempool::new(CHAIN_ID.to_string());
    let bogus = OutPoint { txid: [9u8; 32], vout: 0 };

    let err = mempool
        .insert(&store, signed_spend(&sender, bogus, vec![TxOut { amount: 100, pubkey_hash: receiver.address() }]))
        .unwrap_err();
    assert_eq!(err, MempoolError::UnknownOutpoint);
}

#[test]
fn lib_rejects_insufficient_inputs() {
    let sender = Keypair::generate();
    let receiver = Keypair::generate();
    let (store, spend) = store_with(sender.address(), 50);
    let mut mempool = Mempool::new(CHAIN_ID.to_string());

    let err = mempool
        .insert(&store, signed_spend(&sender, spend, vec![TxOut { amount: 100, pubkey_hash: receiver.address() }]))
        .unwrap_err();
    assert_eq!(err, MempoolError::InsufficientInputs { available: 50, required: 100 });
}

#[test]
fn rejects_a_second_transaction_spending_the_same_pending_outpoint() {
    let sender = Keypair::generate();
    let receiver = Keypair::generate();
    let (store, spend) = store_with(sender.address(), 1_000);
    let mut mempool = Mempool::new(CHAIN_ID.to_string());

    mempool
        .insert(&store, signed_spend(&sender, spend, vec![TxOut { amount: 900, pubkey_hash: receiver.address() }]))
        .expect("primera tx entra");

    let err = mempool
        .insert(&store, signed_spend(&sender, spend, vec![TxOut { amount: 800, pubkey_hash: receiver.address() }]))
        .unwrap_err();
    assert_eq!(err, MempoolError::OutpointAlreadyClaimed);
}

#[test]
fn rejects_inserting_the_exact_same_transaction_twice() {
    let sender = Keypair::generate();
    let receiver = Keypair::generate();
    let (store, spend) = store_with(sender.address(), 1_000);
    let mut mempool = Mempool::new(CHAIN_ID.to_string());

    let tx = signed_spend(&sender, spend, vec![TxOut { amount: 900, pubkey_hash: receiver.address() }]);
    mempool.insert(&store, tx.clone()).expect("primera vez entra");
    assert_eq!(mempool.insert(&store, tx), Err(MempoolError::AlreadyInMempool));
}

#[test]
fn rejects_coinbase_shaped_transactions() {
    let miner = Keypair::generate();
    let store = MemoryStateStore::new();
    let mut mempool = Mempool::new(CHAIN_ID.to_string());

    let tx = Transaction::new_coinbase(CHAIN_ID.to_string(), 1, 0, vec![TxOut { amount: 50, pubkey_hash: miner.address() }]);
    assert_eq!(mempool.insert(&store, tx), Err(MempoolError::CoinbaseNotAllowed));
}

#[test]
fn next_batch_drains_in_fifo_order_and_frees_claimed_outpoints() {
    let sender_a = Keypair::generate();
    let sender_b = Keypair::generate();
    let receiver = Keypair::generate();
    let (mut store, spend_a) = store_with(sender_a.address(), 1_000);
    let op_b = OutPoint { txid: hash(&sender_b.address().0), vout: 0 };
    store.seed_utxo(op_b, TxOut { amount: 1_000, pubkey_hash: sender_b.address() });
    let mut mempool = Mempool::new(CHAIN_ID.to_string());

    let tx_a = signed_spend(&sender_a, spend_a, vec![TxOut { amount: 10, pubkey_hash: receiver.address() }]);
    let tx_b = signed_spend(&sender_b, op_b, vec![TxOut { amount: 10, pubkey_hash: receiver.address() }]);
    mempool.insert(&store, tx_a.clone()).unwrap();
    mempool.insert(&store, tx_b.clone()).unwrap();

    let batch = mempool.next_batch(10);
    assert_eq!(batch.len(), 2);
    assert_eq!(batch[0], tx_a);
    assert_eq!(batch[1], tx_b);
    assert!(mempool.is_empty());
    assert!(!mempool.is_claimed(&spend_a));
    assert!(!mempool.is_claimed(&op_b));
}

#[test]
fn next_batch_respects_max_and_leaves_the_rest_pending() {
    let sender = Keypair::generate();
    let receiver = Keypair::generate();
    let (mut store, spend) = store_with(sender.address(), 1_000);
    let mut mempool = Mempool::new(CHAIN_ID.to_string());

    let tx1 = signed_spend(&sender, spend, vec![TxOut { amount: 10, pubkey_hash: receiver.address() }]);
    let id1 = txid(&tx1);
    let change = OutPoint { txid: id1, vout: 0 };
    store.seed_utxo(change, TxOut { amount: 10, pubkey_hash: receiver.address() });
    mempool.insert(&store, tx1).unwrap();

    let tx2 = signed_spend(&receiver, change, vec![TxOut { amount: 5, pubkey_hash: sender.address() }]);
    mempool.insert(&store, tx2).unwrap();

    let batch = mempool.next_batch(1);
    assert_eq!(batch.len(), 1);
    assert_eq!(mempool.len(), 1);
}

#[test]
fn rejects_new_transactions_once_the_pool_is_full() {
    let sender = Keypair::generate();
    let receiver = Keypair::generate();
    let (mut store, spend_ok) = store_with(sender.address(), 1_000);
    let mut mempool = Mempool::with_max_size(CHAIN_ID.to_string(), 1);

    mempool.insert(&store, signed_spend(&sender, spend_ok, vec![TxOut { amount: 900, pubkey_hash: receiver.address() }])).expect("entra, hay lugar");

    let spend_extra = OutPoint { txid: hash(&receiver.address().0), vout: 0 };
    store.seed_utxo(spend_extra, TxOut { amount: 500, pubkey_hash: receiver.address() });
    let err = mempool.insert(&store, signed_spend(&receiver, spend_extra, vec![TxOut { amount: 100, pubkey_hash: sender.address() }])).unwrap_err();
    assert_eq!(err, MempoolError::Full);
}

#[test]
fn each_fault_of_a_transaction_has_its_error() {
    let sender = Keypair::generate();
    let receiver = Keypair::generate();
    let (store, spend) = store_with(sender.address(), 1_000);
    let mut mempool = Mempool::new(CHAIN_ID.to_string());
    let pay = |amount: u128| vec![TxOut { amount, pubkey_hash: receiver.address() }];

    let none = Transaction { chain_id: CHAIN_ID.to_string(), inputs: vec![], outputs: pay(1) };
    assert_eq!(mempool.insert(&store, none), Err(MempoolError::NoInputs));

    let mut twice = signed_spend(&sender, spend, pay(1));
    twice.inputs.push(twice.inputs[0]);
    assert_eq!(mempool.insert(&store, twice), Err(MempoolError::DuplicateInput));

    assert_eq!(mempool.insert(&store, signed_spend(&receiver, spend, pay(1))), Err(MempoolError::AddressMismatch));

    let mut no_key = signed_spend(&sender, spend, pay(1));
    no_key.inputs[0].public_key = [0u8; 32];
    no_key.inputs[0].public_key[0] = 2;
    assert_eq!(mempool.insert(&store, no_key), Err(MempoolError::InvalidPublicKey));

    let mut many = pay(u128::MAX);
    many.extend(pay(1));
    assert_eq!(mempool.insert(&store, signed_spend(&sender, spend, many)), Err(MempoolError::Overflow));

    assert!(mempool.is_empty());
    assert!(!mempool.is_claimed(&spend));
}

#[test]
fn a_waiting_transaction_claims_what_it_spends() {
    let sender = Keypair::generate();
    let (store, spend) = store_with(sender.address(), 1_000);
    let mut mempool = Mempool::new(CHAIN_ID.to_string());
    let tx = signed_spend(&sender, spend, vec![TxOut { amount: 1_000, pubkey_hash: sender.address() }]);
    let id = txid(&tx);
    assert!(!mempool.contains(&id));
    mempool.insert(&store, tx.clone()).unwrap();
    assert!(mempool.contains(&id));
    assert!(mempool.is_claimed(&spend));
    assert_eq!(mempool.next_batch(0), vec![]);
    assert_eq!(mempool.next_batch(5), vec![tx.clone()]);
    assert!(!mempool.contains(&id));
    mempool.insert(&store, tx).unwrap();
    assert_eq!(mempool.len(), 1);
}

#[test]
fn errors_have_their_texts() {
    assert_eq!(
        MempoolError::WrongChainId { expected: "a".to_string(), found: "b".to_string() }.describe(),
        "chain_id incorrecto: se esperaba 'a', la tx trae 'b'"
    );
    assert_eq!(
        MempoolError::InsufficientInputs { available: 50, required: 100 }.describe(),
        "los inputs no alcanzan para cubrir los outputs: disponible 50, se necesitan 100"
    );
    assert_eq!(MempoolError::Full.describe(), "el mempool está lleno — probá de nuevo más tarde");
}

#[test]
fn the_pool_looks_up_every_outpoint_before_it_checks_a_signature() {
    let sender = Keypair::from_secret_bytes([1u8; 32]);
    let (store, known) = store_with(sender.address(), 1_000);
    let unknown = OutPoint { txid: [9u8; 32], vout: 0 };
    let mut tx = signed_spend(&sender, known, vec![]);
    tx.inputs.push(TxIn { prev_out: unknown, ..tx.inputs[0] });
    let mut mempool = Mempool::new(CHAIN_ID.to_string());
    assert_eq!(mempool.insert(&store, tx), Err(MempoolError::UnknownOutpoint));
    assert!(mempool.is_empty());
}
