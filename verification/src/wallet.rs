//! Spending: choosing outputs, and building and signing a transfer.

use vstd::prelude::*;

use crate::bytes::{array_of, lemma_array_of};
use crate::codec::{signed_part, signing_bytes, signing_bytes_ignore_signatures, signing_preimage};
use crate::crypto::{
    address_of_key, ed25519_is_public_key, ed25519_public_key, ed25519_signature, ed25519_verifies,
    Address, Keypair,
};
use crate::encoding::text_fits;
use crate::state::{
    consumed_outputs, first_fault, input_outcome, names_an_unknown, outputs_total, pairs_total,
    repeats_an_outpoint, transaction_outcome,
};
use crate::text::characters;
use crate::types::{OutPoint, Transaction, TransactionView, TxIn, TxOut};

verus! {

/// Why a transfer could not be made.
#[derive(Debug, Clone, PartialEq, Eq)]
pub enum WalletError {
    FetchUnspent(String),
    Submit(String),
    LatestHeight(String),
    GetTransaction(String),
    AmountOverflow,
    InsufficientFunds { target: u128, available: u128 },
}

/// [`WalletError`] with its texts as sequences.
#[verifier::ext_equal]
pub enum WalletErrorView {
    FetchUnspent(Seq<char>),
    Submit(Seq<char>),
    LatestHeight(Seq<char>),
    GetTransaction(Seq<char>),
    AmountOverflow,
    InsufficientFunds { target: u128, available: u128 },
}

impl View for WalletError {
    type V = WalletErrorView;

    open spec fn view(&self) -> WalletErrorView {
        match *self {
            WalletError::FetchUnspent(t) => WalletErrorView::FetchUnspent(t@),
            WalletError::Submit(t) => WalletErrorView::Submit(t@),
            WalletError::LatestHeight(t) => WalletErrorView::LatestHeight(t@),
            WalletError::GetTransaction(t) => WalletErrorView::GetTransaction(t@),
            WalletError::AmountOverflow => WalletErrorView::AmountOverflow,
            WalletError::InsufficientFunds { target, available } => {
                WalletErrorView::InsufficientFunds { target, available }
            },
        }
    }
}

/// Whether an address of a node says by which scheme to reach it.
pub open spec fn has_scheme(node: Seq<char>) -> bool {
    exists|i: int| 0 <= i <= node.len() - 3 && #[trigger] node.subrange(i, i + 3) == "://"@
}

/// The address at which to reach a node: `http` where no scheme is given.
pub fn node_url(node: &str) -> (r: String)
    ensures
        r@ == (if has_scheme(node@) {
            node@
        } else {
            "http://"@ + node@
        }),
{
    let chars = characters(node);
    let mut i: usize = 0;
    proof {
        reveal_strlit("://");
    }
    while i < chars.len()
        invariant
            i <= chars.len(),
            chars@ == node@,
            "://"@ == seq![':', '/', '/'],
            forall|j: int|
                0 <= j < i && j <= node@.len() - 3 ==> #[trigger] node@.subrange(j, j + 3)
                    != "://"@,
        decreases chars.len() - i,
    {
        if chars.len() - i >= 3 && chars[i] == ':' && chars[i + 1] == '/' && chars[i + 2] == '/' {
            assert(node@.subrange(i as int, i + 3) =~= "://"@);
            return node.to_owned();
        }
        proof {
            if i <= node@.len() - 3 {
                let here = node@.subrange(i as int, i + 3);
                assert(here[0] == node@[i as int] && here[1] == node@[i + 1] && here[2]
                    == node@[i + 2]);
            }
        }
        i += 1;
    }
    let mut out = "http://".to_owned();
    out.append(node);
    out
}

/// The sum of what some outputs hold.
pub open spec fn amounts_total(utxos: Seq<(OutPoint, u128)>) -> nat
    decreases utxos.len(),
{
    if utxos.len() == 0 {
        0
    } else {
        amounts_total(utxos.drop_last()) + utxos.last().1 as nat
    }
}

/// Where an output belongs in a list that starts with the largest: behind every output that holds
/// as much.
pub open spec fn place(sorted: Seq<(OutPoint, u128)>, amount: u128) -> int
    decreases sorted.len(),
{
    if sorted.len() == 0 || sorted.last().1 >= amount {
        sorted.len() as int
    } else {
        place(sorted.drop_last(), amount)
    }
}

/// The outputs from the largest to the smallest. Outputs that hold the same stay in their order.
pub open spec fn largest_first(utxos: Seq<(OutPoint, u128)>) -> Seq<(OutPoint, u128)>
    decreases utxos.len(),
{
    if utxos.len() == 0 {
        Seq::empty()
    } else {
        let sorted = largest_first(utxos.drop_last());
        sorted.insert(place(sorted, utxos.last().1), utxos.last())
    }
}

proof fn lemma_place(sorted: Seq<(OutPoint, u128)>, amount: u128)
    requires
        forall|i: int, j: int|
            0 <= i <= j < sorted.len() ==> (#[trigger] sorted[i]).1 >= (#[trigger] sorted[j]).1,
    ensures
        0 <= place(sorted, amount) <= sorted.len(),
        forall|i: int| 0 <= i < place(sorted, amount) ==> (#[trigger] sorted[i]).1 >= amount,
        forall|i: int|
            place(sorted, amount) <= i < sorted.len() ==> (#[trigger] sorted[i]).1 < amount,
    decreases sorted.len(),
{
    if sorted.len() > 0 && sorted.last().1 < amount {
        let front = sorted.drop_last();
        assert forall|i: int, j: int| 0 <= i <= j < front.len() implies (#[trigger] front[i]).1 >= (
        #[trigger] front[j]).1 by {
            assert(front[i] == sorted[i] && front[j] == sorted[j]);
        }
        lemma_place(front, amount);
        assert forall|i: int| 0 <= i < place(sorted, amount) implies (#[trigger] sorted[i]).1
            >= amount by {
            assert(front[i] == sorted[i]);
        }
        assert forall|i: int| place(sorted, amount) <= i < sorted.len() implies (
        #[trigger] sorted[i]).1 < amount by {
            if i < front.len() {
                assert(front[i] == sorted[i]);
            }
        }
    }
}

/// Ordering the outputs keeps each of them as often as it occurs, and puts no smaller one before a
/// larger one.
pub proof fn ordering_keeps_the_outputs(utxos: Seq<(OutPoint, u128)>)
    ensures
        largest_first(utxos).len() == utxos.len(),
        largest_first(utxos).to_multiset() == utxos.to_multiset(),
        forall|i: int, j: int|
            0 <= i <= j < utxos.len() ==> (#[trigger] largest_first(utxos)[i]).1 >= (
            #[trigger] largest_first(utxos)[j]).1,
        amounts_total(largest_first(utxos)) == amounts_total(utxos),
    decreases utxos.len(),
{
    broadcast use vstd::seq_lib::group_to_multiset_ensures;

    if utxos.len() > 0 {
        let front = utxos.drop_last();
        let last = utxos.last();
        ordering_keeps_the_outputs(front);
        let sorted = largest_first(front);
        lemma_place(sorted, last.1);
        let k = place(sorted, last.1);
        let all = sorted.insert(k, last);
        assert(all.remove(k) =~= sorted);
        assert(all[k] == last);
        assert(all.to_multiset().count(last) > 0) by {
            assert(all.contains(last));
        }
        assert(all.to_multiset() =~= sorted.to_multiset().insert(last)) by {
            assert(sorted.to_multiset() == all.to_multiset().remove(last));
        }
        assert(front.push(last) =~= utxos);
        lemma_total_insert(sorted, k, last);
    }
}

proof fn lemma_total_insert(s: Seq<(OutPoint, u128)>, k: int, u: (OutPoint, u128))
    requires
        0 <= k <= s.len(),
    ensures
        amounts_total(s.insert(k, u)) == amounts_total(s) + u.1,
    decreases s.len(),
{
    let all = s.insert(k, u);
    if k == s.len() {
        assert(all.drop_last() =~= s);
    } else {
        lemma_total_insert(s.drop_last(), k, u);
        assert(all.drop_last() =~= s.drop_last().insert(k, u));
        assert(all.last() == s.last());
    }
}

pub proof fn lemma_total_take(s: Seq<(OutPoint, u128)>, k: int)
    requires
        0 <= k <= s.len(),
    ensures
        amounts_total(s.take(k)) <= amounts_total(s),
    decreases s.len() - k,
{
    if k == s.len() {
        assert(s.take(k) =~= s);
    } else {
        lemma_total_take(s, k + 1);
        assert(s.take(k + 1).drop_last() =~= s.take(k));
    }
}

/// How many outputs from `k` on it takes to cover `target`, or all of them.
pub open spec fn cover(sorted: Seq<(OutPoint, u128)>, target: u128, k: int) -> int
    decreases sorted.len() - k,
{
    if k >= sorted.len() || amounts_total(sorted.take(k)) >= target {
        k
    } else {
        cover(sorted, target, k + 1)
    }
}

pub open spec fn outpoints(utxos: Seq<(OutPoint, u128)>) -> Seq<OutPoint> {
    Seq::new(utxos.len(), |i: int| utxos[i].0)
}

/// The outputs to spend for `target` and their sum: the fewest of the largest that cover it. There
/// are none where all together do not, or where the sum exceeds 2^128 - 1.
pub open spec fn selection(utxos: Seq<(OutPoint, u128)>, target: u128) -> Option<
    (Seq<OutPoint>, u128),
> {
    let sorted = largest_first(utxos);
    let chosen = sorted.take(cover(sorted, target, 0));
    if amounts_total(chosen) < target || amounts_total(chosen) > u128::MAX {
        None
    } else {
        Some((outpoints(chosen), amounts_total(chosen) as u128))
    }
}

pub proof fn lemma_cover(sorted: Seq<(OutPoint, u128)>, target: u128, k: int)
    requires
        0 <= k <= sorted.len(),
    ensures
        k <= cover(sorted, target, k) <= sorted.len(),
        cover(sorted, target, k) == sorted.len() || amounts_total(
            sorted.take(cover(sorted, target, k)),
        ) >= target,
        forall|j: int|
            k <= j < cover(sorted, target, k) ==> amounts_total(#[trigger] sorted.take(j)) < target,
    decreases sorted.len() - k,
{
    if k < sorted.len() && amounts_total(sorted.take(k)) < target {
        lemma_cover(sorted, target, k + 1);
    }
}

/// A selection covers what is asked for, and would not without its last output. There is one
/// exactly where all outputs together cover it, as long as their sum fits.
pub proof fn selection_covers_and_is_minimal(utxos: Seq<(OutPoint, u128)>, target: u128)
    ensures
        amounts_total(utxos) <= u128::MAX ==> (selection(utxos, target) is Some <==> amounts_total(
            utxos,
        ) >= target),
        selection(utxos, target) matches Some((spend, total)) ==> {
            &&& total >= target
            &&& spend.len() <= utxos.len()
            &&& spend.len() > 0 ==> total - largest_first(utxos)[spend.len() - 1].1 < target
        },
{
    let sorted = largest_first(utxos);
    ordering_keeps_the_outputs(utxos);
    lemma_cover(sorted, target, 0);
    let k = cover(sorted, target, 0);
    lemma_total_take(sorted, k);
    assert(sorted.take(sorted.len() as int) =~= sorted);
    if k > 0 {
        assert(sorted.take(k).drop_last() =~= sorted.take(k - 1));
        assert(amounts_total(sorted.take(k - 1)) < target);
    }
}

/// The height of the latest mined block, given the latest height of a chain. The first block of a
/// chain is not mined.
pub fn mined_height(latest: Option<u64>) -> (r: Option<u64>)
    ensures
        r == (match latest {
            Some(height) => if height > 0 {
                Some(height)
            } else {
                None
            },
            None => None::<u64>,
        }),
{
    match latest {
        Some(height) => if height > 0 {
            Some(height)
        } else {
            None
        },
        None => None,
    }
}

fn order(utxos: Vec<(OutPoint, u128)>) -> (r: Vec<(OutPoint, u128)>)
    ensures
        r@ == largest_first(utxos@),
{
    let mut sorted: Vec<(OutPoint, u128)> = Vec::new();
    let mut i: usize = 0;
    assert(utxos@.take(0) =~= Seq::<(OutPoint, u128)>::empty());
    while i < utxos.len()
        invariant
            i <= utxos.len(),
            sorted@ == largest_first(utxos@.take(i as int)),
        decreases utxos.len() - i,
    {
        let utxo = utxos[i];
        let mut k: usize = sorted.len();
        assert(sorted@.take(k as int) =~= sorted@);
        while k > 0 && sorted[k - 1].1 < utxo.1
            invariant
                k <= sorted.len(),
                place(sorted@.take(k as int), utxo.1) == place(sorted@, utxo.1),
            decreases k,
        {
            assert(sorted@.take(k as int).drop_last() =~= sorted@.take(k - 1));
            k -= 1;
        }
        assert(k > 0 ==> sorted@.take(k as int).last() == sorted@[k - 1]);
        assert(utxos@.take(i + 1).drop_last() =~= utxos@.take(i as int));
        sorted.insert(k, utxo);
        i += 1;
    }
    assert(utxos@.take(utxos@.len() as int) =~= utxos@);
    sorted
}

/// Chooses outputs from the largest down until they cover `target`.
pub fn select_utxos(utxos: Vec<(OutPoint, u128)>, target: u128) -> (r: Option<
    (Vec<OutPoint>, u128),
>)
    ensures
        match r {
            Some((spend, total)) => selection(utxos@, target) == Some((spend@, total)),
            None => selection(utxos@, target) is None,
        },
{
    let sorted = order(utxos);
    let mut selected: Vec<OutPoint> = Vec::new();
    let mut total: u128 = 0;
    let mut i: usize = 0;
    assert(sorted@.take(0) =~= Seq::<(OutPoint, u128)>::empty());
    assert(outpoints(sorted@.take(0)) =~= Seq::<OutPoint>::empty());
    while i < sorted.len() && total < target
        invariant
            i <= sorted.len(),
            sorted@ == largest_first(utxos@),
            total == amounts_total(sorted@.take(i as int)),
            selected@ == outpoints(sorted@.take(i as int)),
            cover(sorted@, target, 0) == cover(sorted@, target, i as int),
        decreases sorted.len() - i,
    {
        let (outpoint, amount) = sorted[i];
        let ghost next = sorted@.take(i + 1);
        assert(next.drop_last() =~= sorted@.take(i as int));
        total = match total.checked_add(amount) {
            Some(sum) => sum,
            None => {
                assert(cover(sorted@, target, i + 1) == i + 1);
                return None;
            },
        };
        selected.push(outpoint);
        assert(selected@ =~= outpoints(next));
        i += 1;
    }
    if total < target {
        None
    } else {
        Some((selected, total))
    }
}

/// An input that spends an output of the holder of a key.
pub open spec fn spending_input(prev_out: OutPoint, key: Seq<u8>, signature: Seq<u8>) -> TxIn {
    TxIn { prev_out, public_key: array_of(key), signature: array_of(signature) }
}

/// A transfer of `amount` that spends some outputs and leaves `change` to the holder of a key,
/// every input with the same signature.
pub open spec fn transfer_with(
    chain_id: Seq<char>,
    key: Seq<u8>,
    to: Address,
    amount: u128,
    change: u128,
    spend: Seq<OutPoint>,
    signature: Seq<u8>,
) -> TransactionView {
    let paid = TxOut { amount, pubkey_hash: to };
    let kept = TxOut { amount: change, pubkey_hash: address_of_key(key) };
    TransactionView {
        chain_id,
        inputs: Seq::new(spend.len(), |i: int| spending_input(spend[i], key, signature)),
        outputs: if change > 0 {
            seq![paid, kept]
        } else {
            seq![paid]
        },
    }
}

pub open spec fn blank_signature() -> Seq<u8> {
    Seq::new(64, |i: int| 0u8)
}

/// A transfer, signed with a secret key: every input carries the signature of the transaction
/// without signatures.
pub open spec fn signed_transfer(
    chain_id: Seq<char>,
    secret: Seq<u8>,
    to: Address,
    amount: u128,
    change: u128,
    spend: Seq<OutPoint>,
) -> TransactionView {
    let key = ed25519_public_key(secret);
    let unsigned = transfer_with(chain_id, key, to, amount, change, spend, blank_signature());
    let signature = ed25519_signature(secret, signing_preimage(unsigned));
    transfer_with(chain_id, key, to, amount, change, spend, signature)
}

/// The transfer that is made, or why none is.
pub open spec fn transfer_outcome(
    chain_id: Seq<char>,
    secret: Seq<u8>,
    to: Address,
    amount: u128,
    fee: u128,
    utxos: Seq<(OutPoint, u128)>,
) -> Result<TransactionView, WalletErrorView> {
    if amount + fee > u128::MAX {
        Err(WalletErrorView::AmountOverflow)
    } else {
        let target = (amount + fee) as u128;
        match selection(utxos, target) {
            None => Err(
                WalletErrorView::InsufficientFunds {
                    target,
                    available: amounts_total(utxos) as u128,
                },
            ),
            Some((spend, total)) => Ok(
                signed_transfer(chain_id, secret, to, amount, (total - target) as u128, spend),
            ),
        }
    }
}

/// The sum of what some outputs hold, if it fits.
pub fn checked_sum(utxos: &Vec<(OutPoint, u128)>) -> (r: Option<u128>)
    ensures
        r == (if amounts_total(utxos@) <= u128::MAX {
            Some(amounts_total(utxos@) as u128)
        } else {
            None::<u128>
        }),
{
    let mut total: u128 = 0;
    let mut i: usize = 0;
    assert(utxos@.take(0) =~= Seq::<(OutPoint, u128)>::empty());
    while i < utxos.len()
        invariant
            i <= utxos.len(),
            total == amounts_total(utxos@.take(i as int)),
        decreases utxos.len() - i,
    {
        assert(utxos@.take(i + 1).drop_last() =~= utxos@.take(i as int));
        proof {
            lemma_total_take(utxos@, i + 1);
        }
        match total.checked_add(utxos[i].1) {
            Some(sum) => {
                total = sum;
            },
            None => return None,
        }
        i += 1;
    }
    assert(utxos@.take(utxos@.len() as int) =~= utxos@);
    Some(total)
}

fn spending_inputs(spend: &Vec<OutPoint>, public_key: [u8; 32], signature: [u8; 64]) -> (r: Vec<
    TxIn,
>)
    ensures
        r@ == Seq::new(
            spend@.len(),
            |i: int| spending_input(spend@[i], public_key@, signature@),
        ),
{
    let mut inputs: Vec<TxIn> = Vec::new();
    let mut i: usize = 0;
    proof {
        lemma_array_of(public_key);
        lemma_array_of(signature);
    }
    while i < spend.len()
        invariant
            i <= spend.len(),
            inputs@.len() == i,
            array_of::<32>(public_key@) == public_key,
            array_of::<64>(signature@) == signature,
            forall|j: int|
                0 <= j < i ==> #[trigger] inputs@[j] == spending_input(
                    spend@[j],
                    public_key@,
                    signature@,
                ),
        decreases spend.len() - i,
    {
        inputs.push(TxIn { prev_out: spend[i], public_key, signature });
        i += 1;
    }
    assert(inputs@ =~= Seq::new(
        spend@.len(),
        |i: int| spending_input(spend@[i], public_key@, signature@),
    ));
    inputs
}

/// Every input carries a public key, and a signature of the transaction under it that verifies.
pub open spec fn authorised_by(tx: TransactionView, key: Seq<u8>) -> bool {
    forall|i: int|
        0 <= i < tx.inputs.len() ==> (#[trigger] tx.inputs[i]).public_key@ == key
            && ed25519_is_public_key(key) && ed25519_verifies(
            key,
            signing_preimage(tx),
            tx.inputs[i].signature@,
        )
}

/// Builds and signs a transfer from the holder of a key pair, over outputs that are theirs.
pub fn build_transfer(
    chain_id: String,
    from: &Keypair,
    to: Address,
    amount: u128,
    fee: u128,
    utxos: Vec<(OutPoint, u128)>,
) -> (r: Result<Transaction, WalletError>)
    requires
        amount + fee <= u128::MAX ==> amounts_total(utxos@) <= u128::MAX,
        utxos@.len() <= u32::MAX,
        text_fits(chain_id@),
    ensures
        match r {
            Ok(tx) => transfer_outcome(chain_id@, from@, to, amount, fee, utxos@) == Ok::<
                _,
                WalletErrorView,
            >(tx@),
            Err(e) => transfer_outcome(chain_id@, from@, to, amount, fee, utxos@) == Err::<
                TransactionView,
                _,
            >(e@),
        },
        r matches Ok(tx) ==> tx@.encodable() && authorised_by(tx@, ed25519_public_key(from@)),
{
    let target: u128 = match amount.checked_add(fee) {
        Some(target) => target,
        None => return Err(WalletError::AmountOverflow),
    };
    let available: u128 = match checked_sum(&utxos) {
        Some(total) => total,
        None => 0,
    };
    let ghost listed = utxos@;
    let (spend, total) = match select_utxos(utxos, target) {
        Some(chosen) => chosen,
        None => return Err(WalletError::InsufficientFunds { target, available }),
    };
    proof {
        selection_covers_and_is_minimal(listed, target);
    }
    let change: u128 = total - target;
    let mut outputs: Vec<TxOut> = Vec::new();
    outputs.push(TxOut { amount, pubkey_hash: to });
    if change > 0 {
        outputs.push(TxOut { amount: change, pubkey_hash: from.address() });
    }
    let public_key: [u8; 32] = from.public_key().to_bytes();
    let blank: [u8; 64] = [0u8; 64];
    let unsigned = Transaction {
        chain_id,
        inputs: spending_inputs(&spend, public_key, blank),
        outputs,
    };
    let ghost key = ed25519_public_key(from@);
    proof {
        assert(blank@ =~= blank_signature());
        let expected = transfer_with(
            chain_id@,
            key,
            to,
            amount,
            change,
            spend@,
            blank_signature(),
        );
        assert(unsigned@.inputs =~= expected.inputs);
        assert(unsigned@.outputs =~= expected.outputs);
        assert(unsigned@ == expected);
    }
    let message = signing_bytes(&unsigned);
    let signature: [u8; 64] = from.sign(message.as_slice()).to_bytes();
    let tx = Transaction {
        chain_id: unsigned.chain_id,
        inputs: spending_inputs(&spend, public_key, signature),
        outputs: unsigned.outputs,
    };
    proof {
        let expected = signed_transfer(chain_id@, from@, to, amount, change, spend@);
        assert(tx@.inputs =~= expected.inputs);
        assert(tx@ == expected);
        lemma_array_of(public_key);
        lemma_array_of(signature);
        assert forall|i: int| 0 <= i < tx@.inputs.len() implies signed_part(
            #[trigger] tx@.inputs[i],
        ) == signed_part(unsigned@.inputs[i]) by {}
        signing_bytes_ignore_signatures(tx@, unsigned@);
    }
    Ok(tx)
}

/// A set of unspent outputs holds the listed ones, each as its owner's.
pub open spec fn owns(
    utxos: Map<OutPoint, TxOut>,
    owner: Address,
    listed: Seq<(OutPoint, u128)>,
) -> bool {
    forall|i: int|
        0 <= i < listed.len() ==> utxos.get((#[trigger] listed[i]).0) == Some(
            TxOut { amount: listed[i].1, pubkey_hash: owner },
        )
}

/// A transfer that was built over outputs that are the sender's, each listed once, is accepted by
/// the ledger that holds them, and leaves the fee that was asked for to the miner.
pub proof fn transfer_is_accepted(
    utxos: Map<OutPoint, TxOut>,
    chain_id: Seq<char>,
    secret: Seq<u8>,
    to: Address,
    amount: u128,
    fee: u128,
    listed: Seq<(OutPoint, u128)>,
    tx: TransactionView,
)
    requires
        owns(utxos, address_of_key(ed25519_public_key(secret)), listed),
        outpoints(listed).no_duplicates(),
        forall|i: int|
            0 <= i < listed.len() ==> !(spending_input(
                (#[trigger] listed[i]).0,
                Seq::empty(),
                Seq::empty(),
            ).marks_coinbase()),
        amounts_total(listed) <= u128::MAX,
        0 < amount + fee,
        transfer_outcome(chain_id, secret, to, amount, fee, listed) == Ok::<_, WalletErrorView>(tx),
        authorised_by(tx, ed25519_public_key(secret)),
    ensures
        transaction_outcome(utxos, tx, chain_id) is Ok,
        transaction_outcome(utxos, tx, chain_id)->Ok_0.fee == fee,
{
    let key = ed25519_public_key(secret);
    let owner = address_of_key(key);
    let target = (amount + fee) as u128;
    let (spend, total) = selection(listed, target)->0;
    let sorted = largest_first(listed);
    ordering_keeps_the_outputs(listed);
    lemma_cover(sorted, target, 0);
    let k = cover(sorted, target, 0);
    let chosen = sorted.take(k);
    assert(spend == outpoints(chosen));
    assert(chosen.len() > 0);
    lemma_order_distinct(listed);
    assert forall|i: int| 0 <= i < chosen.len() implies utxos.get((#[trigger] chosen[i]).0) == Some(
        TxOut { amount: chosen[i].1, pubkey_hash: owner },
    ) && !tx.inputs[i].marks_coinbase() by {
        assert(sorted.contains(sorted[i]));
        lemma_order_contains(listed, sorted[i]);
        let j = choose|j: int| 0 <= j < listed.len() && listed[j] == sorted[i];
        assert(listed[j] == chosen[i]);
        assert(tx.inputs[i].prev_out == chosen[i].0);
    }
    assert(!repeats_an_outpoint(tx.inputs)) by {
        if repeats_an_outpoint(tx.inputs) {
            let (i, j) = choose|i: int, j: int|
                0 <= i < j < tx.inputs.len() && (#[trigger] tx.inputs[i]).prev_out == (
                #[trigger] tx.inputs[j]).prev_out;
            assert(tx.inputs[i].prev_out == chosen[i].0);
            assert(tx.inputs[j].prev_out == chosen[j].0);
            assert(outpoints(sorted)[i] == outpoints(sorted)[j]);
        }
    }
    assert(!tx.is_coinbase()) by {
        assert(chosen[0] == sorted[0]);
        assert(tx.inputs[0].prev_out == chosen[0].0);
    }
    lemma_inputs_sum(utxos, tx, key, chosen, chosen.len() as int);
    assert(tx.inputs.take(chosen.len() as int) =~= tx.inputs);
    assert(consumed_outputs(utxos, tx).take(chosen.len() as int) =~= consumed_outputs(utxos, tx));
    assert(!names_an_unknown(utxos, tx.inputs)) by {
        assert forall|i: int| 0 <= i < tx.inputs.len() implies utxos.contains_key(
            (#[trigger] tx.inputs[i]).prev_out,
        ) by {
            assert(tx.inputs[i].prev_out == chosen[i].0);
            assert(utxos.get(chosen[i].0) is Some);
        }
    }
    assert(chosen.take(chosen.len() as int) =~= chosen);
    lemma_transfer_outputs(tx.outputs, to, owner, amount, (total - target) as u128);
}

proof fn lemma_transfer_outputs(
    outputs: Seq<TxOut>,
    to: Address,
    owner: Address,
    amount: u128,
    change: u128,
)
    requires
        outputs == (if change > 0 {
            seq![TxOut { amount, pubkey_hash: to }, TxOut { amount: change, pubkey_hash: owner }]
        } else {
            seq![TxOut { amount, pubkey_hash: to }]
        }),
    ensures
        outputs_total(outputs) == amount + change,
{
    let first = seq![TxOut { amount, pubkey_hash: to }];
    assert(first.drop_last() =~= Seq::<TxOut>::empty());
    assert(outputs_total(Seq::<TxOut>::empty()) == 0);
    assert(outputs_total(first) == amount);
    if change > 0 {
        assert(outputs.drop_last() =~= first);
    }
}

proof fn lemma_inputs_sum(
    utxos: Map<OutPoint, TxOut>,
    tx: TransactionView,
    key: Seq<u8>,
    chosen: Seq<(OutPoint, u128)>,
    k: int,
)
    requires
        0 <= k <= chosen.len() == tx.inputs.len(),
        amounts_total(chosen) <= u128::MAX,
        authorised_by(tx, key),
        forall|i: int|
            0 <= i < chosen.len() ==> (#[trigger] tx.inputs[i]).prev_out == chosen[i].0,
        forall|i: int|
            0 <= i < chosen.len() ==> utxos.get((#[trigger] chosen[i]).0) == Some(
                TxOut { amount: chosen[i].1, pubkey_hash: address_of_key(key) },
            ),
    ensures
        first_fault(
            consumed_outputs(utxos, tx).take(k),
            signing_preimage(tx),
            tx.inputs.take(k),
        ) is None,
        pairs_total(consumed_outputs(utxos, tx).take(k)) == amounts_total(chosen.take(k)),
    decreases k,
{
    let outputs = consumed_outputs(utxos, tx);
    if k > 0 {
        assert(outputs.take(k).drop_last() =~= outputs.take(k - 1));
        assert(outputs.take(k).last() == outputs[k - 1]);
        lemma_inputs_sum(utxos, tx, key, chosen, k - 1);
        assert(tx.inputs.take(k).drop_last() =~= tx.inputs.take(k - 1));
        assert(chosen.take(k).drop_last() =~= chosen.take(k - 1));
        lemma_total_take(chosen, k);
        let input = tx.inputs[k - 1];
        assert(tx.inputs.take(k).last() == input);
        assert(chosen.take(k).last() == chosen[k - 1]);
        assert(utxos.get(chosen[k - 1].0) is Some);
        assert(input_outcome(outputs[k - 1].1, signing_preimage(tx), input) == Ok::<
            u128,
            crate::state::SpendFault,
        >(chosen[k - 1].1));
    }
}

pub(crate) proof fn lemma_order_contains(utxos: Seq<(OutPoint, u128)>, u: (OutPoint, u128))
    requires
        largest_first(utxos).contains(u),
    ensures
        utxos.contains(u),
{
    broadcast use vstd::seq_lib::group_to_multiset_ensures;

    ordering_keeps_the_outputs(utxos);
    assert(largest_first(utxos).to_multiset().count(u) > 0);
}

proof fn lemma_order_distinct(utxos: Seq<(OutPoint, u128)>)
    requires
        outpoints(utxos).no_duplicates(),
    ensures
        outpoints(largest_first(utxos)).no_duplicates(),
    decreases utxos.len(),
{
    if utxos.len() > 0 {
        let front = utxos.drop_last();
        let last = utxos.last();
        assert forall|i: int, j: int| 0 <= i < j < front.len() implies outpoints(front)[i]
            != outpoints(front)[j] by {
            assert(outpoints(utxos)[i] != outpoints(utxos)[j]);
        }
        lemma_order_distinct(front);
        ordering_keeps_the_outputs(front);
        let sorted = largest_first(front);
        lemma_place(sorted, last.1);
        let k = place(sorted, last.1);
        let all = sorted.insert(k, last);
        assert forall|i: int| 0 <= i < sorted.len() implies (#[trigger] sorted[i]).0 != last.0 by {
            assert(sorted.contains(sorted[i]));
            lemma_order_contains(front, sorted[i]);
            let j = choose|j: int| 0 <= j < front.len() && front[j] == sorted[i];
            assert(outpoints(utxos)[j] != outpoints(utxos)[utxos.len() - 1]);
        }
        assert forall|i: int, j: int| 0 <= i < j < all.len() implies outpoints(all)[i] != outpoints(
            all,
        )[j] by {
            let a = if i < k { i } else { i - 1 };
            let b = if j < k { j } else { j - 1 };
            if i != k && j != k {
                assert(outpoints(sorted)[a] != outpoints(sorted)[b]);
            }
        }
    }
}

/// A transfer that is built spends some of the largest outputs, as few as cover the amount and the
/// fee; they are given back, and the rest. It pays the amount to the recipient first. Where the
/// outputs that it spends, however many, hold more than the amount and the fee, it has one more
/// output, which pays the difference to the address of the sender's key; otherwise it has no
/// other. So a recipient other than the sender is paid the amount and nothing else.
pub proof fn transfer_pays_the_amount_and_returns_the_rest(
    chain_id: Seq<char>,
    secret: Seq<u8>,
    to: Address,
    amount: u128,
    fee: u128,
    utxos: Seq<(OutPoint, u128)>,
    tx: TransactionView,
) -> (r: (Seq<(OutPoint, u128)>, Seq<(OutPoint, u128)>))
    requires
        transfer_outcome(chain_id, secret, to, amount, fee, utxos) == Ok::<_, WalletErrorView>(tx),
    ensures
        (r.0 + r.1).to_multiset() == utxos.to_multiset(),
        forall|i: int, j: int|
            0 <= i < r.0.len() && 0 <= j < r.1.len() ==> (#[trigger] r.0[i]).1 >= (
            #[trigger] r.1[j]).1,
        amounts_total(r.0) >= amount + fee,
        r.0.len() > 0 ==> amounts_total(r.0.drop_last()) < amount + fee,
        tx.chain_id == chain_id,
        tx.inputs.len() == r.0.len(),
        forall|i: int| 0 <= i < r.0.len() ==> (#[trigger] tx.inputs[i]).prev_out == r.0[i].0,
        tx.outputs[0] == (TxOut { amount, pubkey_hash: to }),
        amounts_total(r.0) == amount + fee ==> tx.outputs.len() == 1,
        amounts_total(r.0) > amount + fee ==> {
            &&& tx.outputs.len() == 2
            &&& tx.outputs[1].amount == amounts_total(r.0) - amount - fee
            &&& tx.outputs[1].pubkey_hash == address_of_key(ed25519_public_key(secret))
        },
        to != address_of_key(ed25519_public_key(secret)) ==> forall|i: int|
            0 <= i < tx.outputs.len() && (#[trigger] tx.outputs[i]).pubkey_hash == to ==> i == 0,
{
    let target = (amount + fee) as u128;
    let sorted = largest_first(utxos);
    ordering_keeps_the_outputs(utxos);
    lemma_cover(sorted, target, 0);
    let k = cover(sorted, target, 0);
    let chosen = sorted.take(k);
    let rest = sorted.skip(k);
    assert(chosen + rest =~= sorted);
    if k > 0 {
        assert(chosen.drop_last() =~= sorted.take(k - 1));
    }
    (chosen, rest)
}

/// A transfer is built exactly where the amount and the fee fit together and all outputs together
/// cover them; otherwise it is said which of the two fails, with what is asked for and what there
/// is.
pub proof fn transfer_is_built_where_it_is_covered(
    chain_id: Seq<char>,
    secret: Seq<u8>,
    to: Address,
    amount: u128,
    fee: u128,
    utxos: Seq<(OutPoint, u128)>,
)
    requires
        amounts_total(utxos) <= u128::MAX,
    ensures
        ({
            let outcome = transfer_outcome(chain_id, secret, to, amount, fee, utxos);
            &&& outcome is Ok <==> amount + fee <= u128::MAX && amount + fee <= amounts_total(utxos)
            &&& amount + fee > u128::MAX ==> outcome == Err::<TransactionView, _>(
                WalletErrorView::AmountOverflow,
            )
            &&& amounts_total(utxos) < amount + fee <= u128::MAX ==> outcome == Err::<
                TransactionView,
                _,
            >(
                WalletErrorView::InsufficientFunds {
                    target: (amount + fee) as u128,
                    available: amounts_total(utxos) as u128,
                },
            )
        }),
{
    if amount + fee <= u128::MAX {
        selection_covers_and_is_minimal(utxos, (amount + fee) as u128);
    }
}

/// The sum of amounts is a sum: nothing for none, the amount of a single output, and what the
/// parts come to together.
pub proof fn amounts_add_up(
    a: Seq<(OutPoint, u128)>,
    b: Seq<(OutPoint, u128)>,
    one: (OutPoint, u128),
)
    ensures
        amounts_total(Seq::empty()) == 0,
        amounts_total(seq![one]) == one.1,
        amounts_total(a + b) == amounts_total(a) + amounts_total(b),
    decreases b.len(),
{
    assert(seq![one].drop_last() =~= Seq::<(OutPoint, u128)>::empty());
    if b.len() == 0 {
        assert(a + b =~= a);
    } else {
        amounts_add_up(a, b.drop_last(), one);
        assert((a + b).drop_last() =~= a + b.drop_last());
    }
}

/// Outputs that hold the same stay in the order in which they are listed.
pub proof fn ordering_is_stable(utxos: Seq<(OutPoint, u128)>, amount: u128)
    ensures
        largest_first(utxos).filter(|u: (OutPoint, u128)| u.1 == amount) == utxos.filter(
            |u: (OutPoint, u128)| u.1 == amount,
        ),
    decreases utxos.len(),
{
    let holds = |u: (OutPoint, u128)| u.1 == amount;
    reveal(Seq::filter);
    if utxos.len() > 0 {
        let front = utxos.drop_last();
        let last = utxos.last();
        ordering_is_stable(front, amount);
        ordering_keeps_the_outputs(front);
        let sorted = largest_first(front);
        lemma_place(sorted, last.1);
        let k = place(sorted, last.1);
        let (low, high) = (sorted.skip(k), sorted.take(k));
        assert(sorted =~= high + low);
        assert(largest_first(utxos) =~= high.push(last) + low);
        Seq::filter_distributes_over_add(high, low, holds);
        Seq::filter_distributes_over_add(high.push(last), low, holds);
        assert(high.push(last).drop_last() =~= high);
        if last.1 == amount {
            lemma_none_filtered(low, amount);
            assert(high.push(last).filter(holds) =~= high.filter(holds).push(last));
            assert(low.filter(holds) =~= Seq::empty());
        } else {
            assert(high.push(last).filter(holds) =~= high.filter(holds));
        }
    } else {
        assert(largest_first(utxos) =~= utxos);
    }
}

/// Where every output holds less than an amount, none holds it.
proof fn lemma_none_filtered(low: Seq<(OutPoint, u128)>, amount: u128)
    requires
        forall|i: int| 0 <= i < low.len() ==> (#[trigger] low[i]).1 < amount,
    ensures
        low.filter(|u: (OutPoint, u128)| u.1 == amount).len() == 0,
    decreases low.len(),
{
    reveal(Seq::filter);
    if low.len() > 0 {
        assert forall|i: int| 0 <= i < low.drop_last().len() implies (
        #[trigger] low.drop_last()[i]).1 < amount by {
            assert(low.drop_last()[i] == low[i]);
        }
        assert(low[low.len() - 1] == low.last());
        lemma_none_filtered(low.drop_last(), amount);
    }
}

/// A scheme is found wherever it stands.
pub proof fn scheme_is_found_anywhere(before: Seq<char>, after: Seq<char>)
    ensures
        has_scheme(before + "://"@ + after),
{
    reveal_strlit("://");
    let node = before + "://"@ + after;
    let i = before.len() as int;
    assert(node.subrange(i, i + 3) =~= "://"@);
}

/// A selection names some of the outputs, none of them smaller than any that is left, and says what
/// they hold together; without the last of them that would be too little. The outputs that are
/// chosen are given back, and the rest.
pub proof fn selection_is_the_fewest_of_the_largest(
    utxos: Seq<(OutPoint, u128)>,
    target: u128,
    spend: Seq<OutPoint>,
    total: u128,
) -> (r: (Seq<(OutPoint, u128)>, Seq<(OutPoint, u128)>))
    requires
        selection(utxos, target) == Some((spend, total)),
    ensures
        (r.0 + r.1).to_multiset() == utxos.to_multiset(),
        forall|i: int, j: int|
            0 <= i < r.0.len() && 0 <= j < r.1.len() ==> (#[trigger] r.0[i]).1 >= (
            #[trigger] r.1[j]).1,
        spend.len() == r.0.len(),
        forall|i: int| 0 <= i < spend.len() ==> #[trigger] spend[i] == r.0[i].0,
        total == amounts_total(r.0),
        total >= target,
        r.0.len() > 0 ==> amounts_total(r.0.drop_last()) < target,
{
    let sorted = largest_first(utxos);
    ordering_keeps_the_outputs(utxos);
    lemma_cover(sorted, target, 0);
    let k = cover(sorted, target, 0);
    let chosen = sorted.take(k);
    let rest = sorted.skip(k);
    assert(chosen + rest =~= sorted);
    if k > 0 {
        assert(chosen.drop_last() =~= sorted.take(k - 1));
    }
    (chosen, rest)
}

} // verus!
