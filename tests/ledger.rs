use chrono::NaiveDate;
use entoli::account::Account;
use entoli::ledger::AccountLedger;

fn date(y: i32, m: u32, d: u32) -> NaiveDate {
    NaiveDate::from_ymd_opt(y, m, d).unwrap()
}

#[test]
fn test_account_ledger() {
    let ledger = AccountLedger::new(Account::Cash)
        .debit_added(
            Account::BeginningBalance,
            100,
            NaiveDate::from_ymd_opt(2020, 1, 1).unwrap(),
        )
        .credit_added(
            Account::EndingBalance,
            100,
            NaiveDate::from_ymd_opt(2020, 1, 1).unwrap(),
        );

    assert_eq!(ledger.debit_amount(), 100);
    assert_eq!(ledger.credit_amount(), 100);
    assert_eq!(ledger.balance(), 0);
    assert_eq!(ledger.is_balanced(), true);
}

#[test]
fn test_account_ledger_carry_forward() {
    let ledger = AccountLedger::new(Account::Cash).credit_added(
        Account::Inventory,
        100,
        NaiveDate::from_ymd_opt(2020, 1, 15).unwrap(),
    );

    let (closed_ledger, next_ledger) = ledger.carry_forward(
        NaiveDate::from_ymd_opt(2020, 1, 31).unwrap(),
        NaiveDate::from_ymd_opt(2020, 2, 1).unwrap(),
    );

    assert_eq!(closed_ledger.debit_amount(), 100);
    assert_eq!(closed_ledger.credit_amount(), 100);
    assert_eq!(next_ledger.debit_amount(), 0);
    assert_eq!(next_ledger.credit_amount(), 100);
}

#[test]
fn carry_forward_debit_excess_records_entries() {
    let ledger = AccountLedger::new(Account::Inventory)
        .debit_added(Account::Cash, 250, date(2020, 3, 2))
        .credit_added(Account::Cogs, 50, date(2020, 3, 9));
    let (closed, next) = ledger.carry_forward(date(2020, 3, 31), date(2020, 4, 1));
    assert_eq!(closed.credits.len(), 2);
    assert_eq!(closed.credits[1].offset_account, Account::EndingBalance);
    assert_eq!(closed.credits[1].amount, 200);
    assert_eq!(closed.credits[1].date, date(2020, 3, 31));
    assert_eq!(next.account, Account::Inventory);
    assert_eq!(next.debits.len(), 1);
    assert_eq!(next.debits[0].offset_account, Account::BeginningBalance);
    assert_eq!(next.debits[0].amount, 200);
    assert_eq!(next.debits[0].date, date(2020, 4, 1));
    assert!(next.credits.is_empty());
}

#[test]
fn carry_forward_of_balanced_ledger_is_unchanged() {
    let ledger = AccountLedger::new(Account::Cash)
        .debit_added(Account::SalesRevenue, 70, date(2021, 5, 5))
        .credit_added(Account::Salary, 70, date(2021, 5, 6));
    let (closed, next) = ledger.clone().carry_forward(date(2021, 5, 31), date(2021, 6, 1));
    assert_eq!(closed, ledger);
    assert!(next.debits.is_empty() && next.credits.is_empty());
}

#[test]
fn balance_follows_sign_convention() {
    let asset = AccountLedger::new(Account::Cash)
        .debit_added(Account::SalesRevenue, 300, date(2020, 1, 2))
        .credit_added(Account::Salary, 120, date(2020, 1, 3));
    assert_eq!(asset.balance(), 180);
    assert!(!asset.is_balanced());

    let liability = AccountLedger::new(Account::AccountsPayable)
        .credit_added(Account::Inventory, 90, date(2020, 1, 2))
        .debit_added(Account::Cash, 30, date(2020, 1, 3));
    assert_eq!(liability.balance(), 60);

    let revenue = AccountLedger::new(Account::SalesRevenue).credit_added(
        Account::Cash,
        45,
        date(2020, 1, 2),
    );
    assert_eq!(revenue.balance(), 45);

    let expense = AccountLedger::new(Account::Salary).debit_added(Account::Cash, 45, date(2020, 1, 2));
    assert_eq!(expense.balance(), 45);
}

#[test]
fn amounts_of_empty_ledger_are_zero() {
    let ledger = AccountLedger::new(Account::Equity);
    assert_eq!(ledger.debit_amount(), 0);
    assert_eq!(ledger.credit_amount(), 0);
    assert!(ledger.is_balanced());
}

#[test]
fn amounts_sum_signed_entries() {
    let ledger = AccountLedger::new(Account::Cash)
        .debit_added(Account::SalesRevenue, 40, date(2020, 1, 2))
        .debit_added(Account::SalesRevenue, -15, date(2020, 1, 3))
        .debit_added(Account::SalesRevenue, 5, date(2020, 1, 4));
    assert_eq!(ledger.debit_amount(), 30);
}
