use znx::crypto::{CryptoError, Keypair};
use znx::custody::{
    assemble_withdrawal, check_auth, constant_time_eq, format_base_units_as_znx_decimal, is_blank,
    is_confirmed, parse_znx_decimal_to_base_units, pending_action, read_withdrawal, white_space,
    withdrawal_entry, DepositScan, Journal, JournalEntry, PendingAction, SignWithdrawalParams,
    Withdrawal, WithdrawalStep,
};
use znx::rpc::RpcFault;
use znx::types::{OutPoint, TxOut};

fn entry(request_id: &str, txid: &str) -> JournalEntry {
    JournalEntry { request_id: request_id.to_string(), to: "znx1destino".to_string(), amount: "10".to_string(), fee: "1".to_string(), txid: txid.to_string() }
}

#[test]
fn journal_append_then_reload_from_disk_preserves_entries() {
    let mut journal = Journal::new();
    let mut kept = Vec::new();
    assert!(journal.get("req-1").is_none());
    journal.append(entry("req-1", "aa"));
    kept.push(entry("req-1", "aa"));
    journal.append(entry("req-2", "bb"));
    kept.push(entry("req-2", "bb"));
    assert_eq!(journal.get("req-1").expect("existe").txid, "aa");

    let reloaded = Journal::from_entries(kept);
    assert_eq!(reloaded.get("req-1").expect("existe tras reload").txid, "aa");
    assert_eq!(reloaded.get("req-2").expect("existe tras reload").txid, "bb");
    assert!(reloaded.get("req-3").is_none());
}

#[test]
fn journal_load_of_missing_file_starts_empty() {
    let journal = Journal::from_entries(Vec::new());
    assert!(journal.get("cualquiera").is_none());
}

#[test]
fn parse_znx_decimal_whole_number() {
    assert_eq!(parse_znx_decimal_to_base_units("10").unwrap(), 10_000_000_000_000_000_000);
}

#[test]
fn parse_znx_decimal_with_fraction() {
    assert_eq!(parse_znx_decimal_to_base_units("12.5").unwrap(), 12_500_000_000_000_000_000);
}

#[test]
fn parse_znx_decimal_smallest_unit() {
    assert_eq!(parse_znx_decimal_to_base_units("0.000000000000000001").unwrap(), 1);
}

#[test]
fn parse_znx_decimal_leading_dot() {
    assert_eq!(parse_znx_decimal_to_base_units(".5").unwrap(), 500_000_000_000_000_000);
}

#[test]
fn parse_znx_decimal_too_many_decimals_rejected() {
    assert!(parse_znx_decimal_to_base_units("1.2345678901234567890").is_err());
}

#[test]
fn parse_znx_decimal_zero_rejected() {
    assert!(parse_znx_decimal_to_base_units("0").is_err());
    assert!(parse_znx_decimal_to_base_units("0.0").is_err());
}

#[test]
fn parse_znx_decimal_negative_rejected() {
    assert!(parse_znx_decimal_to_base_units("-5").is_err());
}

#[test]
fn parse_znx_decimal_garbage_rejected() {
    assert!(parse_znx_decimal_to_base_units("no-es-un-numero").is_err());
    assert!(parse_znx_decimal_to_base_units("1.2.3").is_err());
    assert!(parse_znx_decimal_to_base_units("").is_err());
    assert!(parse_znx_decimal_to_base_units("   ").is_err());
}

#[test]
fn parse_znx_decimal_overflow_rejected() {
    assert!(parse_znx_decimal_to_base_units("999999999999999999999999999999999999999999").is_err());
}

#[test]
fn format_base_units_whole_number() {
    assert_eq!(format_base_units_as_znx_decimal(10_000_000_000_000_000_000), "10");
}

#[test]
fn format_base_units_with_fraction_trims_trailing_zeros() {
    assert_eq!(format_base_units_as_znx_decimal(12_500_000_000_000_000_000), "12.5");
}

#[test]
fn format_base_units_smallest_unit() {
    assert_eq!(format_base_units_as_znx_decimal(1), "0.000000000000000001");
}

#[test]
fn format_base_units_zero() {
    assert_eq!(format_base_units_as_znx_decimal(0), "0");
}

#[test]
fn parse_then_format_roundtrips() {
    for raw in ["10", "12.5", "0.000000000000000001", "1234567.891"] {
        let units = parse_znx_decimal_to_base_units(raw).unwrap();
        let formatted = format_base_units_as_znx_decimal(units);
        assert_eq!(parse_znx_decimal_to_base_units(&formatted).unwrap(), units, "roundtrip de {raw}");
    }
}

#[test]
fn amounts_that_are_none_say_why() {
    let message = |raw: &str| parse_znx_decimal_to_base_units(raw).unwrap_err();
    assert_eq!(message(" \u{3000}"), "monto vacío");
    assert_eq!(message("-5"), "monto negativo");
    assert_eq!(message("1.2.3"), "`1.2.3` no es un monto decimal válido");
    assert_eq!(message("+1"), "`+1` no es un monto decimal válido");
    assert_eq!(message("٣"), "`٣` no es un monto decimal válido");
    assert_eq!(message(" 0.0000000000000000001 "), "` 0.0000000000000000001 ` tiene más de 18 decimales");
    assert_eq!(message("340282366920938463464"), "`340282366920938463464` desborda u128");
    assert_eq!(message("340282366920938463463.374607431768211456"), "`340282366920938463463.374607431768211456` desborda u128");
    assert_eq!(message("."), "el monto tiene que ser mayor a cero");
}

#[test]
fn amounts_may_be_as_large_as_a_number_holds() {
    assert_eq!(parse_znx_decimal_to_base_units("340282366920938463463.374607431768211455"), Ok(u128::MAX));
    assert_eq!(format_base_units_as_znx_decimal(u128::MAX), "340282366920938463463.374607431768211455");
    assert_eq!(parse_znx_decimal_to_base_units("\t5.\n"), Ok(5_000_000_000_000_000_000));
    assert_eq!(parse_znx_decimal_to_base_units("007.10"), Ok(7_100_000_000_000_000_000));
}

#[test]
fn white_space_is_what_unicode_says() {
    for n in 0..=0x10_FFFFu32 {
        if let Some(c) = char::from_u32(n) {
            assert_eq!(white_space(c), c.is_whitespace(), "{n:x}");
        }
    }
    assert!(is_blank(" \t"));
    assert!(!is_blank(" x "));
}

#[test]
fn bytes_are_compared_to_the_end() {
    assert!(constant_time_eq(b"", b""));
    assert!(constant_time_eq(b"abc", b"abc"));
    assert!(!constant_time_eq(b"abc", b"abd"));
    assert!(!constant_time_eq(b"xbc", b"abc"));
    assert!(!constant_time_eq(b"abc", b"ab"));
}

#[test]
fn without_a_token_nobody_may_withdraw() {
    assert_eq!(check_auth("secreto", Some("secreto".to_string())), Ok(()));
    assert_eq!(
        check_auth("otro", Some("secreto".to_string())),
        Err(RpcFault::InvalidParams("auth_token inválido".to_string()))
    );
    assert!(matches!(check_auth("", None), Err(RpcFault::InternalError(_))));
}

fn params(to: &str, amount: &str, fee: Option<&str>) -> SignWithdrawalParams {
    SignWithdrawalParams {
        request_id: "r".to_string(),
        to: to.to_string(),
        amount: amount.to_string(),
        fee: fee.map(|f| f.to_string()),
        auth_token: "t".to_string(),
    }
}

#[test]
fn a_withdrawal_is_read_field_by_field() {
    let to = Keypair::from_secret_bytes([7u8; 32]).address();
    let text = to.to_bech32();
    assert_eq!(read_withdrawal(&params(&text, "10", None)), Ok(Withdrawal { to, amount: 10, fee: 0 }));
    assert_eq!(read_withdrawal(&params(&text, "10", Some("3"))), Ok(Withdrawal { to, amount: 10, fee: 3 }));
    assert_eq!(
        read_withdrawal(&params(&text, "x", Some("y"))),
        Err(RpcFault::InvalidParams("`amount` no es un u128 válido".to_string()))
    );
    assert_eq!(
        read_withdrawal(&params(&text, "1", Some("y"))),
        Err(RpcFault::InvalidParams("`fee` no es un u128 válido".to_string()))
    );
    assert!(matches!(read_withdrawal(&params("znx1", "x", None)), Err(RpcFault::InvalidParams(_))));
    assert_eq!(
        assemble_withdrawal(Err(CryptoError::InvalidPublicKeyLength), "1", &None),
        Err(RpcFault::InvalidParams("bytes de llave pública con largo inválido".to_string()))
    );
}

#[test]
fn a_waiting_withdrawal_fails_for_good_only_where_it_can_never_be_sent() {
    let to = Keypair::from_secret_bytes([7u8; 32]).address();
    assert_eq!(
        pending_action(&to.to_bech32(), "0.5"),
        PendingAction::Send { to, amount: 500_000_000_000_000_000 }
    );
    assert_eq!(pending_action("nadie", "0.5"), PendingAction::Fail("dirección de destino inválida".to_string()));
    assert_eq!(pending_action(&to.to_bech32(), "0"), PendingAction::Fail("monto inválido".to_string()));
}

#[test]
fn a_request_is_sent_once() {
    let mut journal = Journal::new();
    assert_eq!(journal.decide("r", "znx1a", 5, 1), WithdrawalStep::Send);
    journal.append(withdrawal_entry("r".to_string(), "znx1a".to_string(), 5, 1, &[0xabu8; 32]));
    assert_eq!(journal.decide("r", "znx1a", 5, 1), WithdrawalStep::AlreadySent("ab".repeat(32)));
    let refused = WithdrawalStep::Refused("request_id r ya se usó antes con otros parámetros".to_string());
    assert_eq!(journal.decide("r", "znx1b", 5, 1), refused);
    assert_eq!(journal.decide("r", "znx1a", 6, 1), refused);
    assert_eq!(journal.decide("r", "znx1a", 5, 2), refused);
    assert_eq!(journal.decide("s", "znx1a", 5, 1), WithdrawalStep::Send);
}

#[test]
fn the_later_of_two_entries_counts() {
    let journal = Journal::from_entries(vec![entry("r", "aa"), entry("r", "bb")]);
    assert_eq!(journal.get("r").unwrap().txid, "bb");
}

#[test]
fn a_block_confirms_its_own_transactions() {
    assert!(is_confirmed(10, 10, 1));
    assert!(!is_confirmed(10, 10, 2));
    assert!(is_confirmed(15, 10, 6));
    assert!(!is_confirmed(14, 10, 6));
    assert!(is_confirmed(5, 10, 0));
    assert!(is_confirmed(5, 10, 1));
    assert!(!is_confirmed(5, 10, 2));
    assert!(is_confirmed(u64::MAX, 0, u64::MAX));
}

fn outpoint(byte: u8) -> OutPoint {
    OutPoint { txid: [byte; 32], vout: 1 }
}

#[test]
fn only_reported_deposits_are_swept() {
    let deposit = Keypair::from_secret_bytes([8u8; 32]);
    let custody = Keypair::from_secret_bytes([9u8; 32]).address();
    assert!(DepositScan::start(vec![], Some(10), 6).is_none());
    assert!(DepositScan::start(vec![(outpoint(1), 5)], None, 6).is_none());

    let utxos = vec![(outpoint(1), 5), (outpoint(2), 6), (outpoint(3), 7), (outpoint(4), 8), (outpoint(5), 9)];
    let mut scan = DepositScan::start(utxos, Some(10), 6).unwrap();
    assert_eq!(scan.current(), Some(outpoint(1)));
    let report = scan.on_height(Some(5)).unwrap();
    assert_eq!(report.tx_hash, "01".repeat(32));
    assert_eq!(report.vout, 1);
    assert_eq!(report.amount, "0.000000000000000005");
    assert!(!scan.has_deposits());
    scan.on_reported(true);
    assert_eq!(scan.current(), Some(outpoint(2)));
    assert!(scan.on_height(None).is_none());
    assert_eq!(scan.current(), Some(outpoint(3)));
    assert!(scan.on_height(Some(6)).is_none());
    assert_eq!(scan.current(), Some(outpoint(4)));
    assert!(scan.on_height(Some(0)).is_some());
    scan.on_reported(false);
    assert_eq!(scan.current(), Some(outpoint(5)));
    assert!(scan.on_height(Some(1)).is_some());
    scan.on_reported(true);
    assert_eq!(scan.current(), None);
    assert!(scan.has_deposits());
    assert!(scan.sum_fits());

    let tx = scan.sweep("znx-test-1".to_string(), &deposit, custody).unwrap();
    assert_eq!(tx.outputs, vec![TxOut { amount: 14, pubkey_hash: custody }]);
    let spent: Vec<OutPoint> = tx.inputs.iter().map(|i| i.prev_out).collect();
    assert_eq!(spent, vec![outpoint(5), outpoint(1)]);
}
