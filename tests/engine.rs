use chrono::NaiveDate;
use entoli::account::{descendant_accounts, is_desc_account, sub_accounts, Account};
use entoli::accounting::{close_ledger, close_temp_accounts, posting};
use entoli::ledger::AccountLedger;
use entoli::ledger_tree::LedgerTree;
use entoli::transaction::{Transaction, TransactionType};

fn date(y: i32, m: u32, d: u32) -> NaiveDate {
    NaiveDate::from_ymd_opt(y, m, d).unwrap()
}

fn tx(debit: Account, credit: Account, amount: i64, day: u32) -> Transaction {
    Transaction {
        trans_type: TransactionType::OperatingTransaction,
        debit_account: debit,
        credit_account: credit,
        amount,
        date: date(2020, 1, day),
    }
}

fn ledgers(tree: LedgerTree) -> Vec<AccountLedger> {
    tree.flatten()
}

#[test]
fn new_tree_has_one_node_per_descendant() {
    for a in [Account::AccountBase, Account::Asset, Account::TaxExpense, Account::Cash] {
        let tree = LedgerTree::new(a);
        let nodes = ledgers(tree);
        let accounts = descendant_accounts(&a);
        assert_eq!(nodes.len(), accounts.len());
        for l in nodes.iter() {
            assert!(accounts.contains(&l.account));
            assert!(l.debits.is_empty() && l.credits.is_empty());
        }
    }
}

#[test]
fn new_tree_mirrors_sub_accounts() {
    let tree = LedgerTree::new(Account::Equity);
    assert_eq!(tree.value.account, Account::Equity);
    assert_eq!(tree.children.len(), 2);
    assert_eq!(tree.children[0].value.account, Account::PaidInCapital);
    assert_eq!(tree.children[1].value.account, Account::RetainedEarnings);
    assert!(tree.children[1].children.is_empty());
}

#[test]
fn posting_reaches_every_ancestor() {
    let mut tree = LedgerTree::new(Account::AccountBase);
    posting(&mut tree, vec![tx(Account::Cash, Account::SalesRevenue, 100, 15)]);

    for a in [
        Account::Cash,
        Account::CurrentAsset,
        Account::Asset,
        Account::Account,
        Account::AccountBase,
    ] {
        let l = tree.find_ledger(a).unwrap();
        assert_eq!(l.debits.len(), 1);
        assert_eq!(l.debits[0].offset_account, Account::SalesRevenue);
        assert_eq!(l.debits[0].amount, 100);
        assert_eq!(l.debits[0].date, date(2020, 1, 15));
    }
    for a in [Account::SalesRevenue, Account::Revenue, Account::Account, Account::AccountBase] {
        let l = tree.find_ledger(a).unwrap();
        assert_eq!(l.credits.len(), 1);
        assert_eq!(l.credits[0].offset_account, Account::Cash);
        assert_eq!(l.credits[0].amount, 100);
    }
    for a in [Account::Inventory, Account::Liability, Account::Expense, Account::ServiceRevenue] {
        let l = tree.find_ledger(a).unwrap();
        assert!(l.debits.is_empty() && l.credits.is_empty());
    }
}

#[test]
fn posting_keeps_leaf_debits_equal_to_leaf_credits() {
    let mut tree = LedgerTree::new(Account::AccountBase);
    posting(
        &mut tree,
        vec![
            tx(Account::Cash, Account::SalesRevenue, 500, 3),
            tx(Account::Salary, Account::Cash, 300, 7),
            tx(Account::Inventory, Account::AccountsPayable, 120, 9),
            tx(Account::AccountsPayable, Account::Cash, 20, 11),
        ],
    );
    let mut debits = 0;
    let mut credits = 0;
    for l in ledgers(tree) {
        if sub_accounts(l.account).is_empty() {
            debits += l.debit_amount();
            credits += l.credit_amount();
        }
    }
    assert_eq!(debits, 940);
    assert_eq!(credits, 940);
}

#[test]
fn find_ledger_of_absent_account_is_none() {
    let tree = LedgerTree::new(Account::Expense);
    assert!(tree.find_ledger(Account::Cash).is_none());
    assert_eq!(tree.find_ledger(Account::Vat).unwrap().account, Account::Vat);
}

#[test]
fn map_ledger_on_absent_account_changes_nothing() {
    let tree = LedgerTree::new(Account::Expense);
    let same = LedgerTree::new(Account::Expense);
    let mapped = tree.map_ledger(Account::Cash, |l| l.debit_added(Account::Cash, 1, date(2020, 1, 1)));
    assert_eq!(mapped, same);

    let tree = LedgerTree::new(Account::Revenue);
    let same = LedgerTree::new(Account::Revenue);
    let mapped =
        tree.map_desc_ledgers(Account::Asset, |l| l.credit_added(Account::Cash, 1, date(2020, 1, 1)));
    assert_eq!(mapped, same);
}

#[test]
fn map_ledger_touches_only_its_account() {
    let tree = LedgerTree::new(Account::TaxExpense);
    let mapped = tree.map_ledger(Account::Vat, |l| l.debit_added(Account::Cash, 9, date(2020, 1, 1)));
    for l in ledgers(mapped) {
        if l.account == Account::Vat {
            assert_eq!(l.debit_amount(), 9);
        } else {
            assert!(l.debits.is_empty());
        }
    }
}

#[test]
fn map_desc_and_ances_ledgers_select_subtree_and_chain() {
    let tree = LedgerTree::new(Account::AccountBase);
    let mapped =
        tree.map_desc_ledgers(Account::Cogs, |l| l.debit_added(Account::Cash, 1, date(2020, 1, 1)));
    for l in ledgers(mapped) {
        assert_eq!(l.debits.len() == 1, is_desc_account(l.account, Account::Cogs));
    }

    let tree = LedgerTree::new(Account::AccountBase);
    let mapped =
        tree.map_ances_ledgers(Account::Patent, |l| l.credit_added(Account::Cash, 1, date(2020, 1, 1)));
    let chain = [
        Account::Patent,
        Account::IntangibleAsset,
        Account::NonCurrentAsset,
        Account::Asset,
        Account::Account,
        Account::AccountBase,
    ];
    for l in ledgers(mapped) {
        assert_eq!(l.credits.len() == 1, chain.contains(&l.account));
    }
}

fn posted_period() -> LedgerTree {
    let mut tree = LedgerTree::new(Account::AccountBase);
    posting(
        &mut tree,
        vec![
            tx(Account::Cash, Account::SalesRevenue, 500, 3),
            tx(Account::Salary, Account::Cash, 300, 7),
        ],
    );
    tree
}

#[test]
fn close_temp_accounts_balances_revenues_and_expenses() {
    let mut tree = posted_period();
    close_temp_accounts(&mut tree, date(2020, 1, 31));

    let salary = tree.find_ledger(Account::Salary).unwrap();
    assert_eq!(salary.credits[0].offset_account, Account::IncomeSummary);
    assert_eq!(salary.credits[0].amount, 300);
    let sales = tree.find_ledger(Account::SalesRevenue).unwrap();
    assert_eq!(sales.debits[0].offset_account, Account::IncomeSummary);
    assert_eq!(sales.debits[0].amount, 500);

    let retained = tree.find_ledger(Account::RetainedEarnings).unwrap();
    assert_eq!(retained.credit_amount(), 200);
    assert_eq!(retained.credits[0].offset_account, Account::RetainedEarnings);
    assert_eq!(tree.find_ledger(Account::Equity).unwrap().credit_amount(), 200);

    for l in ledgers(tree) {
        if is_desc_account(l.account, Account::Expense) || is_desc_account(l.account, Account::Revenue) {
            assert!(l.is_balanced());
        }
    }
}

#[test]
fn close_temp_accounts_debits_a_net_loss() {
    let mut tree = LedgerTree::new(Account::AccountBase);
    posting(
        &mut tree,
        vec![
            tx(Account::Cash, Account::ServiceRevenue, 80, 3),
            tx(Account::RentExpense, Account::Cash, 130, 4),
        ],
    );
    close_temp_accounts(&mut tree, date(2020, 1, 31));
    let retained = tree.find_ledger(Account::RetainedEarnings).unwrap();
    assert_eq!(retained.debit_amount(), 50);
    assert_eq!(retained.credit_amount(), 0);
}

#[test]
fn close_ledger_closes_and_carries_forward() {
    let (closed, next) = close_ledger(posted_period(), date(2020, 1, 31), date(2020, 2, 1));

    let cash = closed.find_ledger(Account::Cash).unwrap();
    assert_eq!(cash.debit_amount(), 500);
    assert_eq!(cash.credit_amount(), 500);
    assert_eq!(cash.credits[1].offset_account, Account::EndingBalance);

    let cash_next = next.find_ledger(Account::Cash).unwrap();
    assert_eq!(cash_next.debit_amount(), 200);
    assert_eq!(cash_next.debits[0].offset_account, Account::BeginningBalance);
    assert_eq!(cash_next.debits[0].date, date(2020, 2, 1));

    let retained_next = next.find_ledger(Account::RetainedEarnings).unwrap();
    assert_eq!(retained_next.credit_amount(), 200);

    assert!(next.find_ledger(Account::Salary).unwrap().debits.is_empty());
    assert!(next.find_ledger(Account::SalesRevenue).unwrap().credits.is_empty());

    for l in ledgers(closed) {
        if is_desc_account(l.account, Account::Asset)
            || is_desc_account(l.account, Account::Liability)
            || is_desc_account(l.account, Account::Equity)
        {
            assert_eq!(l.debit_amount(), l.credit_amount());
        }
    }
}

#[test]
fn find_ledger_returns_first_match_in_pre_order() {
    let marked = |amount: i64| AccountLedger::new(Account::Cash).debit_added(Account::Cash, amount, date(2020, 1, 1));
    let tree = entoli::tree::Tree {
        value: AccountLedger::new(Account::Asset),
        children: vec![
            entoli::tree::Tree {
                value: AccountLedger::new(Account::Inventory),
                children: vec![entoli::tree::Tree { value: marked(1), children: vec![] }],
            },
            entoli::tree::Tree { value: marked(2), children: vec![] },
        ],
    };
    assert_eq!(tree.find_ledger(Account::Cash).unwrap().debit_amount(), 1);
    assert_eq!(tree.find_ledger(Account::Asset).unwrap().account, Account::Asset);
    assert!(tree.find_ledger(Account::Vat).is_none());
}
