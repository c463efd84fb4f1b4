use entoli::account::{
    ancestor_accounts, descendant_accounts, is_ances_account, is_desc_account, sub_accounts, Account,
};

#[test]
fn test_sub_accounts() {
    let account = Account::Account;
    let sub_accounts = sub_accounts(account);

    assert_eq!(
        sub_accounts,
        vec![
            Account::Equity,
            Account::Asset,
            Account::Liability,
            Account::Revenue,
            Account::Expense,
        ]
    );
}

#[test]
fn sub_accounts_of_tax_expense() {
    assert_eq!(
        sub_accounts(Account::TaxExpense),
        vec![Account::CorporateTax, Account::CustomsDuty, Account::Vat]
    );
}

#[test]
fn sub_accounts_of_leaf_is_empty() {
    assert_eq!(sub_accounts(Account::Cash), vec![]);
    assert_eq!(sub_accounts(Account::Goodwill), vec![]);
}

#[test]
fn test_descendant_accounts() {
    let account = Account::TaxExpense;
    assert_eq!(
        descendant_accounts(&account),
        vec![
            Account::TaxExpense,
            Account::Vat,
            Account::CustomsDuty,
            Account::CorporateTax,
        ]
    );
}

#[test]
fn descendant_accounts_of_leaf_is_itself() {
    assert_eq!(descendant_accounts(&Account::Cash), vec![Account::Cash]);
}

#[test]
fn descendant_accounts_from_root_visit_every_account_once() {
    let all = descendant_accounts(&Account::AccountBase);
    assert_eq!(all.len(), 62);
    for (i, a) in all.iter().enumerate() {
        for b in all.iter().skip(i + 1) {
            assert_ne!(a, b);
        }
    }
    assert!(all.contains(&Account::Patent));
    assert!(all.contains(&Account::EndingBalance));
    assert!(all.contains(&Account::InterestOnLoan));
}

#[test]
fn test_is_desc_account() {
    assert_ne!(
        is_desc_account(Account::TaxExpense, Account::CorporateTax),
        true
    );
    assert_eq!(
        is_desc_account(Account::CorporateTax, Account::TaxExpense),
        true
    );

    assert_eq!(is_desc_account(Account::Cash, Account::Asset), true);
}

#[test]
fn is_desc_account_is_reflexive_and_not_across_branches() {
    assert!(is_desc_account(Account::Cash, Account::Cash));
    assert!(!is_desc_account(Account::Cash, Account::Liability));
    assert!(is_desc_account(Account::Goodwill, Account::AccountBase));
}

#[test]
fn test_ancestor_accounts() {
    let account = Account::TaxExpense;
    assert_eq!(
        ancestor_accounts(account),
        vec![Account::AccountBase, Account::Account, Account::Expense]
    );
}

#[test]
fn ancestor_accounts_of_deep_and_root_accounts() {
    assert_eq!(
        ancestor_accounts(Account::Goodwill),
        vec![
            Account::AccountBase,
            Account::Account,
            Account::Asset,
            Account::NonCurrentAsset,
            Account::IntangibleAsset,
        ]
    );
    assert_eq!(ancestor_accounts(Account::AccountBase), vec![]);
}

#[test]
fn test_is_ancestor_account() {
    let account = Account::TaxExpense;
    let ref_account = Account::Account;
    assert_eq!(is_ances_account(account, ref_account), true);
}

#[test]
fn is_ances_account_rejects_unrelated_accounts() {
    assert!(!is_ances_account(Account::Cash, Account::Revenue));
    assert!(!is_ances_account(Account::Asset, Account::Cash));
}
