//! End-to-end tests: decode comma-separated input, run the ledger engine,
//! and check the resulting account summaries. Balances are fixed-point
//! ten-thousandths, so `1.5` is `15000`.

use payments_engine::parser::parse_csv_data;
use payments_engine::transactions_processor::process_transactions;
use payments_engine::types::{Account, ClassifiedTransactions, TransactionError};
use std::collections::HashMap;

const SAMPLE_INPUT: &str = "type, client, tx, amount
    deposit, 1, 1, 1.0
    deposit, 2, 2, 2.0
    deposit, 1, 3, 2.0
    withdrawal, 1, 4, 1.5
    withdrawal, 2, 5, 3.0";

const INVALID_INPUT: &str = "type, client, tx, amount
     1, 1, 1.0
    deposit, 2, 2, 2.0
    deposit, 1, 3, 2.0";

fn run(input: &str) -> Vec<Account> {
    let classified = parse_csv_data(input.as_bytes()).expect("input should decode");
    process_transactions(&classified).expect("processing should succeed")
}

fn account_of(accounts: &[Account], client: u16) -> &Account {
    accounts
        .iter()
        .find(|a| a.client == client)
        .expect("client should have an account")
}

#[test]
fn can_parse_input_and_process_transactions() -> Result<(), TransactionError> {
    let classified = parse_csv_data(SAMPLE_INPUT.as_bytes())?;
    let accounts_balance = process_transactions(&classified)?;
    assert_eq!(accounts_balance.len(), 2);
    Ok(())
}

#[test]
fn can_not_parse_invalid_transactions() -> Result<(), TransactionError> {
    match parse_csv_data(INVALID_INPUT.as_bytes()) {
        Err(TransactionError::InvalidTransactionRecord(_)) => Ok(()),
        _ => Err(TransactionError::UnknownError(
            "expected InvalidTransactionRecord failure but it parsed succesfully".to_string(),
        )),
    }
}

#[test]
fn deposits_and_withdrawal_settle() {
    let accounts = run("type,client,tx,amount\ndeposit,1,1,1.0\ndeposit,1,2,2.0\nwithdrawal,1,3,1.5");
    assert_eq!(accounts.len(), 1);
    let a = account_of(&accounts, 1);
    assert_eq!(a.available, 15000);
    assert_eq!(a.held, 0);
    assert_eq!(a.total, 15000);
    assert!(!a.locked);
}

#[test]
fn overdrawing_withdrawal_is_skipped() {
    let accounts = run("type,client,tx,amount\ndeposit,1,1,1.0\nwithdrawal,1,2,5.0");
    assert_eq!(accounts.len(), 1);
    let a = account_of(&accounts, 1);
    assert_eq!(a.available, 10000);
    assert_eq!(a.held, 0);
    assert_eq!(a.total, 10000);
    assert!(!a.locked);
}

#[test]
fn dispute_holds_funds() {
    let accounts = run("type,client,tx,amount\ndeposit,1,1,5.0\ndispute,1,1");
    assert_eq!(accounts.len(), 1);
    let a = account_of(&accounts, 1);
    assert_eq!(a.available, 0);
    assert_eq!(a.held, 50000);
    assert_eq!(a.total, 50000);
    assert!(!a.locked);
}

#[test]
fn chargeback_after_dispute_locks_account() {
    let accounts = run("type,client,tx,amount\ndeposit,1,1,5.0\ndispute,1,1\nchargeback,1,1");
    let a = account_of(&accounts, 1);
    assert_eq!(a.available, 0);
    assert_eq!(a.held, 0);
    assert_eq!(a.total, 0);
    assert!(a.locked);
}

#[test]
fn resolve_after_dispute_releases_funds() {
    let accounts = run("type,client,tx,amount\ndeposit,1,1,5.0\ndispute,1,1\nresolve,1,1");
    let a = account_of(&accounts, 1);
    assert_eq!(a.available, 50000);
    assert_eq!(a.held, 0);
    assert_eq!(a.total, 50000);
    assert!(!a.locked);
}

#[test]
fn resolve_and_chargeback_both_apply() {
    // With a dispute, a resolve and a chargeback all recorded for one id,
    // both adjustments fire: the hold is reversed and charged back once each.
    let accounts =
        run("type,client,tx,amount\ndeposit,1,1,5.0\ndispute,1,1\nresolve,1,1\nchargeback,1,1");
    let a = account_of(&accounts, 1);
    assert_eq!(a.available, 50000);
    assert_eq!(a.held, -50000);
    assert_eq!(a.total, 0);
    assert!(a.locked);
}

#[test]
fn cross_client_dispute_is_ignored() {
    let accounts = run("type,client,tx,amount\ndeposit,1,1,5.0\ndeposit,2,2,3.0\ndispute,2,1");
    let one = account_of(&accounts, 1);
    assert_eq!(one.available, 50000);
    assert_eq!(one.held, 0);
    assert_eq!(one.total, 50000);
    assert!(!one.locked);
    let two = account_of(&accounts, 2);
    assert_eq!(two.available, 30000);
    assert_eq!(two.held, 0);
    assert_eq!(two.total, 30000);
    assert!(!two.locked);
}

#[test]
fn resolve_without_dispute_is_inert() {
    let accounts = run("type,client,tx,amount\ndeposit,1,1,5.0\nresolve,1,1\nchargeback,1,1");
    let a = account_of(&accounts, 1);
    assert_eq!(a.available, 50000);
    assert_eq!(a.held, 0);
    assert_eq!(a.total, 50000);
    assert!(!a.locked);
}

#[test]
fn every_account_stays_balanced() {
    let accounts = run(
        "type,client,tx,amount\ndeposit,1,1,5.0\ndeposit,2,2,2.5\ndispute,1,1\nwithdrawal,2,3,1.0\nchargeback,1,1\ndispute,2,2\nresolve,2,2",
    );
    for a in &accounts {
        assert_eq!(a.total, a.available + a.held);
    }
}

#[test]
fn rerun_produces_identical_output() {
    let input = "type,client,tx,amount\ndeposit,1,1,5.0\ndeposit,2,2,2.5\ndispute,1,1\nwithdrawal,2,3,1.0";
    let classified = parse_csv_data(input.as_bytes()).expect("input should decode");
    let first = process_transactions(&classified).expect("processing should succeed");
    let second = process_transactions(&classified).expect("processing should succeed");
    assert_eq!(first.len(), second.len());
    for (a, b) in first.iter().zip(second.iter()) {
        assert_eq!(a.client, b.client);
        assert_eq!(a.available, b.available);
        assert_eq!(a.held, b.held);
        assert_eq!(a.total, b.total);
        assert_eq!(a.locked, b.locked);
    }
}

#[test]
fn malformed_rows_fail_whole_ingestion() {
    let wrong_token_count = "type,client,tx,amount\ndeposit,1\ndeposit,2,2,2.0";
    assert!(matches!(
        parse_csv_data(wrong_token_count.as_bytes()),
        Err(TransactionError::InvalidTransactionRecord(_))
    ));
    let bad_client = "type,client,tx,amount\ndeposit,notanumber,1,1.0";
    assert!(matches!(
        parse_csv_data(bad_client.as_bytes()),
        Err(TransactionError::InvalidTransactionRecord(_))
    ));
    let bad_amount = "type,client,tx,amount\ndeposit,1,1,1.2.3";
    assert!(matches!(
        parse_csv_data(bad_amount.as_bytes()),
        Err(TransactionError::InvalidTransactionRecord(_))
    ));
    let bad_keyword = "type,client,tx,amount\nDeposit,1,1,1.0";
    assert!(matches!(
        parse_csv_data(bad_keyword.as_bytes()),
        Err(TransactionError::InvalidTransactionRecord(_))
    ));
}

#[test]
fn amount_forms_parse_to_fixed_point() {
    let accounts = run(
        "type,client,tx,amount\ndeposit,1,1,1\ndeposit,2,2,1.5\ndeposit,3,3,1.50\ndeposit,4,4,1.2345\ndeposit,5,5,0.0001",
    );
    assert_eq!(account_of(&accounts, 1).available, 10000);
    assert_eq!(account_of(&accounts, 2).available, 15000);
    assert_eq!(account_of(&accounts, 3).available, 15000);
    assert_eq!(account_of(&accounts, 4).available, 12345);
    assert_eq!(account_of(&accounts, 5).available, 1);
}

#[test]
fn too_precise_amount_is_malformed() {
    assert!(matches!(
        parse_csv_data("type,client,tx,amount\ndeposit,1,1,1.23456".as_bytes()),
        Err(TransactionError::InvalidTransactionRecord(_))
    ));
    assert!(matches!(
        parse_csv_data("type,client,tx,amount\ndeposit,1,1,.5".as_bytes()),
        Err(TransactionError::InvalidTransactionRecord(_))
    ));
}

#[test]
fn crlf_and_blank_lines_are_tolerated() {
    let accounts = run("type,client,tx,amount\r\n\r\ndeposit,1,1,1.0\r\n\r\nwithdrawal,1,2,0.5\r\n");
    assert_eq!(accounts.len(), 1);
    let a = account_of(&accounts, 1);
    assert_eq!(a.available, 5000);
    assert_eq!(a.total, 5000);
}

#[test]
fn deposit_without_amount_fails_processing() {
    let classified =
        parse_csv_data("type,client,tx,amount\ndeposit,1,1,".as_bytes()).expect("row is well-formed");
    assert!(matches!(
        process_transactions(&classified),
        Err(TransactionError::TransactionProcessingFailed(_))
    ));
}

#[test]
fn missing_indexed_transaction_fails_processing() {
    let mut client_txs: HashMap<u16, Vec<u32>> = HashMap::new();
    client_txs.insert(1, vec![42]);
    let classified = ClassifiedTransactions {
        clients: vec![1],
        client_txs,
        transactions: HashMap::new(),
        disputes: HashMap::new(),
        resolves: HashMap::new(),
        chargebacks: HashMap::new(),
    };
    assert!(matches!(
        process_transactions(&classified),
        Err(TransactionError::TransactionProcessingFailed(_))
    ));
}

#[test]
fn clients_come_back_in_first_seen_order() {
    let accounts = run("type,client,tx,amount\ndeposit,7,1,1.0\ndeposit,3,2,1.0\ndeposit,7,3,1.0");
    assert_eq!(accounts.len(), 2);
    assert_eq!(accounts[0].client, 7);
    assert_eq!(accounts[1].client, 3);
    assert_eq!(accounts[0].total, 20000);
    assert_eq!(accounts[1].total, 10000);
}

#[test]
fn later_dispute_row_overwrites_earlier_one() {
    // The second dispute row for tx 1 names the right client, so it wins and
    // the hold applies.
    let accounts = run("type,client,tx,amount\ndeposit,1,1,5.0\ndispute,2,1\ndispute,1,1");
    let a = account_of(&accounts, 1);
    assert_eq!(a.available, 0);
    assert_eq!(a.held, 50000);
    assert_eq!(a.total, 50000);
}

#[test]
fn empty_input_yields_no_accounts() {
    let accounts = run("");
    assert!(accounts.is_empty());
    let only_header = run("type,client,tx,amount");
    assert!(only_header.is_empty());
}

#[test]
fn dispute_on_skipped_withdrawal_still_holds_funds() {
    // The hold is gated only on the dispute row, not on whether the
    // withdrawal it references was applied or skipped.
    let accounts = run("type,client,tx,amount\ndeposit,1,1,1.0\nwithdrawal,1,2,5.0\ndispute,1,2");
    let a = account_of(&accounts, 1);
    assert_eq!(a.available, -40000);
    assert_eq!(a.held, 50000);
    assert_eq!(a.total, 10000);
    assert!(!a.locked);
}

#[test]
fn out_of_range_ids_are_malformed() {
    assert!(matches!(
        parse_csv_data("type,client,tx,amount\ndeposit,65536,1,1.0".as_bytes()),
        Err(TransactionError::InvalidTransactionRecord(_))
    ));
    assert!(matches!(
        parse_csv_data("type,client,tx,amount\ndeposit,1,4294967296,1.0".as_bytes()),
        Err(TransactionError::InvalidTransactionRecord(_))
    ));
    let at_limit = run("type,client,tx,amount\ndeposit,65535,4294967295,1.0");
    assert_eq!(account_of(&at_limit, 65535).total, 10000);
}
