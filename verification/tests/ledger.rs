use dex::error::{DexError, ErrorKind, SettlementError};
use dex::ledger::{AccountBalances, Asset, Ledger, VaultBalance};

fn balance(available: u64, reserved: u64) -> VaultBalance {
    VaultBalance { available, reserved }
}

fn base_of(ledger: &Ledger, account: usize) -> VaultBalance {
    ledger.balances(account).unwrap().base
}

fn quote_of(ledger: &Ledger, account: usize) -> VaultBalance {
    ledger.balances(account).unwrap().quote
}

#[test]
fn new_accounts_hold_nothing() {
    let mut ledger = Ledger::new();
    assert_eq!(ledger.len(), 0);
    assert_eq!(ledger.open_account(), 0);
    assert_eq!(ledger.open_account(), 1);
    assert_eq!(ledger.len(), 2);
    assert_eq!(
        ledger.balances(1),
        Some(AccountBalances { base: balance(0, 0), quote: balance(0, 0) })
    );
    assert_eq!(ledger.balances(2), None);
}

#[test]
fn credit_and_debit_move_the_available_balance() {
    let mut ledger = Ledger::new();
    let a = ledger.open_account();
    assert_eq!(ledger.credit(a, Asset::Base, 70), Ok(()));
    assert_eq!(ledger.credit(a, Asset::Quote, 5), Ok(()));
    assert_eq!(base_of(&ledger, a), balance(70, 0));
    assert_eq!(quote_of(&ledger, a), balance(5, 0));
    assert_eq!(ledger.debit(a, Asset::Base, 30), Ok(()));
    assert_eq!(base_of(&ledger, a), balance(40, 0));
    assert_eq!(ledger.debit(a, Asset::Base, 41), Err(SettlementError::InsufficientFunds));
    assert_eq!(base_of(&ledger, a), balance(40, 0));
}

#[test]
fn credit_fails_closed_on_overflow() {
    let mut ledger = Ledger::new();
    let a = ledger.open_account();
    assert_eq!(ledger.credit(a, Asset::Base, u64::MAX - 1), Ok(()));
    assert_eq!(ledger.credit(a, Asset::Base, 2), Err(SettlementError::ArithmeticOverflow));
    assert_eq!(base_of(&ledger, a), balance(u64::MAX - 1, 0));
    assert_eq!(ledger.credit(a, Asset::Base, 1), Ok(()));
    assert_eq!(base_of(&ledger, a), balance(u64::MAX, 0));
}

#[test]
fn credit_counts_the_reserved_part_against_the_limit() {
    let mut ledger = Ledger::new();
    let a = ledger.open_account();
    assert_eq!(ledger.credit(a, Asset::Quote, u64::MAX), Ok(()));
    assert_eq!(ledger.reserve(a, Asset::Quote, u64::MAX), Ok(()));
    assert_eq!(quote_of(&ledger, a), balance(0, u64::MAX));
    assert_eq!(ledger.credit(a, Asset::Quote, 1), Err(SettlementError::ArithmeticOverflow));
}

#[test]
fn reserve_and_release_move_between_available_and_reserved() {
    let mut ledger = Ledger::new();
    let a = ledger.open_account();
    assert_eq!(ledger.credit(a, Asset::Quote, 100), Ok(()));
    assert_eq!(ledger.reserve(a, Asset::Quote, 60), Ok(()));
    assert_eq!(quote_of(&ledger, a), balance(40, 60));
    assert_eq!(ledger.reserve(a, Asset::Quote, 41), Err(SettlementError::InsufficientFunds));
    assert_eq!(quote_of(&ledger, a), balance(40, 60));
    assert_eq!(ledger.release(a, Asset::Quote, 25), Ok(()));
    assert_eq!(quote_of(&ledger, a), balance(65, 35));
    assert_eq!(ledger.release(a, Asset::Quote, 36), Err(SettlementError::InsufficientFunds));
    assert_eq!(quote_of(&ledger, a), balance(65, 35));
    assert_eq!(base_of(&ledger, a), balance(0, 0));
}

#[test]
fn transfer_moves_reserved_funds_to_the_available_balance_of_another() {
    let mut ledger = Ledger::new();
    let a = ledger.open_account();
    let b = ledger.open_account();
    assert_eq!(ledger.credit(a, Asset::Base, 10), Ok(()));
    assert_eq!(ledger.reserve(a, Asset::Base, 8), Ok(()));
    assert_eq!(ledger.transfer(a, b, Asset::Base, 5), Ok(()));
    assert_eq!(base_of(&ledger, a), balance(2, 3));
    assert_eq!(base_of(&ledger, b), balance(5, 0));
    assert_eq!(ledger.transfer(a, b, Asset::Base, 4), Err(SettlementError::InsufficientFunds));
    assert_eq!(base_of(&ledger, a), balance(2, 3));
    assert_eq!(base_of(&ledger, b), balance(5, 0));
}

#[test]
fn transfer_to_oneself_frees_the_reserved_amount() {
    let mut ledger = Ledger::new();
    let a = ledger.open_account();
    assert_eq!(ledger.credit(a, Asset::Base, 10), Ok(()));
    assert_eq!(ledger.reserve(a, Asset::Base, 10), Ok(()));
    assert_eq!(ledger.transfer(a, a, Asset::Base, 4), Ok(()));
    assert_eq!(base_of(&ledger, a), balance(4, 6));
}

#[test]
fn transfer_fails_closed_when_the_receiver_would_overflow() {
    let mut ledger = Ledger::new();
    let a = ledger.open_account();
    let b = ledger.open_account();
    assert_eq!(ledger.credit(a, Asset::Base, 10), Ok(()));
    assert_eq!(ledger.reserve(a, Asset::Base, 10), Ok(()));
    assert_eq!(ledger.credit(b, Asset::Base, u64::MAX - 3), Ok(()));
    assert_eq!(ledger.transfer(a, b, Asset::Base, 4), Err(SettlementError::ArithmeticOverflow));
    assert_eq!(base_of(&ledger, a), balance(0, 10));
    assert_eq!(base_of(&ledger, b), balance(u64::MAX - 3, 0));
    assert_eq!(ledger.transfer(a, b, Asset::Base, 3), Ok(()));
    assert_eq!(base_of(&ledger, b), balance(u64::MAX, 0));
}

#[test]
fn unknown_accounts_are_refused() {
    let mut ledger = Ledger::new();
    let a = ledger.open_account();
    assert_eq!(ledger.credit(7, Asset::Base, 1), Err(SettlementError::UnknownAccount));
    assert_eq!(ledger.debit(7, Asset::Base, 1), Err(SettlementError::UnknownAccount));
    assert_eq!(ledger.reserve(7, Asset::Base, 1), Err(SettlementError::UnknownAccount));
    assert_eq!(ledger.release(7, Asset::Base, 1), Err(SettlementError::UnknownAccount));
    assert_eq!(ledger.transfer(a, 7, Asset::Base, 0), Err(SettlementError::UnknownAccount));
    assert_eq!(ledger.transfer(7, a, Asset::Base, 0), Err(SettlementError::UnknownAccount));
}

#[test]
fn snapshot_is_an_equal_and_independent_ledger() {
    let mut ledger = Ledger::new();
    let a = ledger.open_account();
    assert_eq!(ledger.credit(a, Asset::Base, 10), Ok(()));
    let saved = ledger.snapshot();
    assert_eq!(ledger.debit(a, Asset::Base, 10), Ok(()));
    assert_eq!(base_of(&saved, a), balance(10, 0));
    assert_eq!(base_of(&ledger, a), balance(0, 0));
}

#[test]
fn account_balances_are_read_and_replaced_by_asset() {
    let r = AccountBalances { base: balance(1, 2), quote: balance(3, 4) };
    assert_eq!(r.get(Asset::Base), balance(1, 2));
    assert_eq!(r.get(Asset::Quote), balance(3, 4));
    let s = r.with(Asset::Quote, balance(9, 9));
    assert_eq!(s, AccountBalances { base: balance(1, 2), quote: balance(9, 9) });
    let t = r.with(Asset::Base, balance(0, 0));
    assert_eq!(t, AccountBalances { base: balance(0, 0), quote: balance(3, 4) });
}

#[test]
fn every_error_has_its_kind_and_name() {
    let validation = [
        DexError::InvalidPrice,
        DexError::InvalidQuantity,
        DexError::WrongMarket,
        DexError::Unauthorized,
        DexError::MarketNotInitialized,
        DexError::UnknownAccount,
        DexError::InvalidState,
    ];
    for e in validation {
        assert_eq!(e.kind(), ErrorKind::Validation);
    }
    let state = [
        DexError::MarketAlreadyInitialized,
        DexError::DuplicateOrderId,
        DexError::OrderNotFound,
        DexError::MarketNotEmpty,
    ];
    for e in state {
        assert_eq!(e.kind(), ErrorKind::State);
    }
    assert_eq!(DexError::ArithmeticOverflow.kind(), ErrorKind::Arithmetic);
    assert_eq!(DexError::InsufficientFunds.kind(), ErrorKind::InsufficientFunds);
    assert_eq!(DexError::OrderNotFound.name(), "OrderNotFound");
    assert_eq!(DexError::InvalidPrice.name(), "InvalidPrice");
    assert_eq!(DexError::InvalidState.name(), "InvalidState");
    assert_eq!(DexError::InvalidQuantity.name(), "InvalidQuantity");
    assert_eq!(DexError::WrongMarket.name(), "WrongMarket");
    assert_eq!(DexError::Unauthorized.name(), "Unauthorized");
    assert_eq!(DexError::MarketNotInitialized.name(), "MarketNotInitialized");
    assert_eq!(DexError::UnknownAccount.name(), "UnknownAccount");
    assert_eq!(DexError::MarketAlreadyInitialized.name(), "MarketAlreadyInitialized");
    assert_eq!(DexError::DuplicateOrderId.name(), "DuplicateOrderId");
    assert_eq!(DexError::InsufficientFunds.name(), "InsufficientFunds");
    assert_eq!(DexError::MarketNotEmpty.name(), "MarketNotEmpty");
    assert_eq!(DexError::ArithmeticOverflow.name(), "ArithmeticOverflow");
    assert_eq!(
        DexError::from_settlement(SettlementError::InsufficientFunds),
        DexError::InsufficientFunds
    );
    assert_eq!(
        DexError::from_settlement(SettlementError::ArithmeticOverflow),
        DexError::ArithmeticOverflow
    );
    assert_eq!(
        DexError::from_settlement(SettlementError::UnknownAccount),
        DexError::UnknownAccount
    );
}

#[test]
fn stored_records_are_taken_as_they_are() {
    let records = vec![
        AccountBalances { base: balance(1, 2), quote: balance(3, 4) },
        AccountBalances { base: balance(u64::MAX, 0), quote: balance(0, u64::MAX) },
        AccountBalances { base: balance(u64::MAX - 7, 7), quote: balance(0, 0) },
    ];
    let ledger = Ledger::from_accounts(records.clone()).unwrap();
    assert_eq!(ledger.len(), 3);
    for (a, record) in records.iter().enumerate() {
        assert_eq!(ledger.balances(a), Some(*record));
    }
    assert_eq!(Ledger::from_accounts(vec![]).map(|l| l.len()), Some(0));
}

#[test]
fn stored_record_out_of_range_is_refused() {
    let good = AccountBalances { base: balance(1, 2), quote: balance(3, 4) };
    let base = AccountBalances { base: balance(u64::MAX, 1), quote: balance(0, 0) };
    let quote = AccountBalances { base: balance(0, 0), quote: balance(1, u64::MAX) };
    assert!(Ledger::from_accounts(vec![good, base]).is_none());
    assert!(Ledger::from_accounts(vec![quote, good]).is_none());
}
