use accounters_lib::data::{
    account::{Account, AccountName, AccountType},
    datetime::DateTime,
    money::Amount,
    transaction::Transaction,
    Database, Error,
};

use std::str::FromStr;

#[test]
fn account_name_equality() {
    assert_eq!(
        AccountName::new("bank/checking"),
        AccountName::new("bank/checking")
    );
    assert_ne!(
        AccountName::new("bank/checking"),
        AccountName::new("bank/savings")
    );
}

#[test]
fn compute_balance() {
    let mut database = Database::default();
    database
        .add_account(Account::new("bank/ICA_Bank", AccountType::Asset))
        .unwrap();
    database
        .add_account(Account::new("balance/splitwise", AccountType::Asset))
        .unwrap();
    database
        .add_account(Account::new("bank/BBVA", AccountType::Asset))
        .unwrap();

    database
        .add_transaction(Transaction::example_transaction(
            "cosas",
            "Nada",
            DateTime::from_str("2023-8-16").unwrap(),
            &[
                ("bank/ICA_Bank", "2500 SEK"),
                ("balance/splitwise", "-2500 SEK"),
            ],
        ))
        .unwrap();

    database
        .add_transaction(Transaction::example_transaction(
            "Devolucion",
            "Habia que",
            DateTime::from_str("2023-8-23").unwrap(),
            &[
                ("bank/ICA_Bank", "-1300 SEK"),
                ("balance/splitwise", "1300 SEK"),
            ],
        ))
        .unwrap();

    database
        .add_transaction(Transaction::example_transaction(
            "Otra",
            "Habia que",
            DateTime::from_str("2023-9-03").unwrap(),
            &[("bank/BBVA", "-800 EUR"), ("balance/splitwise", "800 EUR")],
        ))
        .unwrap();

    assert_eq!(
        Amount::from_str("800 EUR, -1200 SEK").unwrap(),
        database
            .get_account_balance(&AccountName::new("balance/splitwise"), None, None)
            .unwrap()
    );

    assert_eq!(
        Amount::from_str("-1200 SEK").unwrap(),
        database
            .get_account_balance(
                &AccountName::new("balance/splitwise"),
                None,
                Some(DateTime::from_str("2023-8-31").unwrap())
            )
            .unwrap()
    );
}

fn small_ledger() -> Database {
    let mut database = Database::default();
    database
        .add_account(Account::new("bank/checking", AccountType::Asset))
        .unwrap();
    database
        .add_account(Account::new("food/groceries", AccountType::Flow))
        .unwrap();
    database
}

#[test]
fn unbalanced_transaction_rejected() {
    let mut database = small_ledger();
    // an asset/flow pair with equal signs does not cancel
    let broken = Transaction::example_transaction(
        "skewed",
        "",
        DateTime::from_str("2023-8-16").unwrap(),
        &[("bank/checking", "-10 SEK"), ("food/groceries", "10 SEK")],
    );
    assert!(matches!(
        database.add_transaction(broken),
        Err(Error::UnbalancedTransaction)
    ));
    // the rejection left no trace
    assert!(database
        .get_account_balance(&AccountName::new("bank/checking"), None, None)
        .unwrap()
        .is_zero());

    // under the asset/flow convention an expense carries the same sign on
    // both sides
    let fine = Transaction::example_transaction(
        "groceries",
        "",
        DateTime::from_str("2023-8-16").unwrap(),
        &[("bank/checking", "-10 SEK"), ("food/groceries", "-10 SEK")],
    );
    assert!(database.add_transaction(fine).is_ok());
    assert_eq!(
        Amount::from_str("-10 SEK").unwrap(),
        database
            .get_account_balance(&AccountName::new("bank/checking"), None, None)
            .unwrap()
    );
}

#[test]
fn unknown_account_rejected() {
    let mut database = small_ledger();
    let stray = Transaction::example_transaction(
        "stray",
        "",
        DateTime::from_str("2023-8-16").unwrap(),
        &[("bank/checking", "-10 SEK"), ("missing/account", "-10 SEK")],
    );
    assert!(matches!(
        database.add_transaction(stray),
        Err(Error::UnknownAccount(_))
    ));
    // no partial index update is observable
    assert!(database
        .get_account_balance(&AccountName::new("bank/checking"), None, None)
        .unwrap()
        .is_zero());
    assert_eq!(0, database.get_transaction_ids().len());
}

#[test]
fn duplicate_account_rejected() {
    let mut database = small_ledger();
    assert!(matches!(
        database.add_account(Account::new("bank/checking", AccountType::Flow)),
        Err(Error::AccountNameInUse(_))
    ));
}

#[test]
fn duplicate_transaction_rejected() {
    let mut database = small_ledger();
    let build = || {
        Transaction::example_transaction(
            "twice",
            "",
            DateTime::from_str("2023-8-16").unwrap(),
            &[("bank/checking", "-10 SEK"), ("food/groceries", "-10 SEK")],
        )
    };
    assert!(database.add_transaction(build()).is_ok());
    // identical content computes the identical id
    assert!(matches!(
        database.add_transaction(build()),
        Err(Error::TransactionIdInUse(_))
    ));
}

#[test]
fn deletion_guard() {
    let mut database = small_ledger();
    let txn = Transaction::example_transaction(
        "guarded",
        "",
        DateTime::from_str("2023-8-16").unwrap(),
        &[("bank/checking", "-10 SEK"), ("food/groceries", "-10 SEK")],
    );
    let id = txn.generate_id();
    database.add_transaction(txn).unwrap();

    // an account with transactions cannot leave
    assert!(matches!(
        database.remove_account(AccountName::new("bank/checking")),
        Err(Error::AccountHasTransactions(_))
    ));

    // once its transactions are gone, it can
    database.remove_transaction(id).unwrap();
    assert!(database
        .remove_account(AccountName::new("bank/checking"))
        .is_ok());
    assert!(matches!(
        database.remove_account(AccountName::new("bank/checking")),
        Err(Error::UnknownAccount(_))
    ));
}

#[test]
fn unknown_removals() {
    let mut database = small_ledger();
    let ghost_txn = Transaction::example_transaction(
        "never stored",
        "",
        DateTime::from_str("2023-8-16").unwrap(),
        &[("bank/checking", "0 SEK")],
    );
    assert!(matches!(
        database.remove_transaction(ghost_txn.generate_id()),
        Err(Error::UnknownTransaction(_))
    ));
    assert!(matches!(
        database.remove_account(AccountName::new("nobody/here")),
        Err(Error::UnknownAccount(_))
    ));
}

#[test]
fn transaction_access() {
    let mut database = small_ledger();
    let txn = Transaction::example_transaction(
        "lunch",
        "notes",
        DateTime::from_str("2023-8-16 12:30").unwrap(),
        &[("bank/checking", "-12.50 SEK"), ("food/groceries", "-12.50 SEK")],
    );
    let id = txn.generate_id();
    assert_eq!(
        Amount::from_str("-12.5 SEK").unwrap(),
        *txn.get_amount(&AccountName::new("bank/checking")).unwrap()
    );
    assert!(txn.get_amount(&AccountName::new("nobody/here")).is_err());
    assert_eq!(2, txn.get_associated_accounts().len());
    assert_eq!(2, txn.get_amounts().len());
    assert_eq!(
        DateTime::from_str("2023-8-16 12:30").unwrap(),
        *txn.get_date()
    );

    database.add_transaction(txn).unwrap();
    let ids = database.get_transaction_ids();
    assert_eq!(vec![id], ids);
    assert_eq!(
        DateTime::from_str("2023-8-16 12:30").unwrap(),
        *database.get_transaction(&id).get_date()
    );

    let names = database.get_account_names();
    assert_eq!(2, names.len());
    let account = database.get_account(&AccountName::new("bank/checking"));
    assert_eq!("bank/checking", account.get_name().as_str());
    assert!(matches!(account.get_account_type(), AccountType::Asset));
    assert!(account.has_transactions());
    assert_eq!(vec![id], account.get_transaction_ids());
}

#[test]
fn from_amounts_builds_the_same_event() {
    let listed = [
        (
            String::from("bank/checking"),
            Amount::from_str("-10 SEK").unwrap(),
        ),
        (
            String::from("food/groceries"),
            Amount::from_str("-10 SEK").unwrap(),
        ),
    ];
    let a = Transaction::from_amounts(
        "same",
        "twice",
        DateTime::from_str("2023-8-16").unwrap(),
        &listed,
    );
    let b = Transaction::from_amounts(
        "same",
        "twice",
        DateTime::from_str("2023-8-16").unwrap(),
        &listed,
    );
    // identity is a pure function of content
    assert_eq!(a.generate_id(), b.generate_id());

    let c = Transaction::from_amounts(
        "same",
        "but later",
        DateTime::from_str("2023-8-17").unwrap(),
        &listed,
    );
    assert_ne!(a.generate_id(), c.generate_id());
}

#[test]
fn balance_of_transaction() {
    let mut database = small_ledger();
    let txn = Transaction::example_transaction(
        "check",
        "",
        DateTime::from_str("2023-8-16").unwrap(),
        &[("bank/checking", "-10 SEK"), ("food/groceries", "-10 SEK")],
    );
    assert!(database.get_transaction_balance(&txn).is_zero());
    database.add_transaction(txn).unwrap();

    // rebuilding the derived indices on a consistent ledger changes
    // nothing observable
    database.build_account_transaction_map().unwrap();
    assert_eq!(
        Amount::from_str("-10 SEK").unwrap(),
        database
            .get_account_balance(&AccountName::new("bank/checking"), None, None)
            .unwrap()
    );
}
