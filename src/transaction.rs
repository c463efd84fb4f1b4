use vstd::prelude::*;

use crate::account::Account;

verus! {

/// A kind of transaction, grouped under operating, investing and financing activities.
#[derive(Debug, Clone, Copy, PartialEq, Eq, Hash, Structural)]
pub enum TransactionType {
    OperatingTransaction,
    InvestingTransaction,
    FinancingTransaction,
    CustomerTransaction,
    RevenueTransaction,
    SupplierTransaction,
    EmployeeTransaction,
    OperatingExpenseTransaction,
    InterestTransaction,
    TaxTransaction,
    PropertyPlantEquipmentTransaction,
    InvestmentTransaction,
    LoanDebtTransaction,
    ShareIssuanceTransaction,
    DebtIssuanceTransaction,
    BorrowingTransaction,
    ShareRepurchaseTransaction,
    DividendTransaction,
    LeaseTransaction,
}

/// The kinds of transaction grouped directly under `t`, in table order.
pub open spec fn sub_transactions_of(t: TransactionType) -> Seq<TransactionType> {
    match t {
        TransactionType::OperatingTransaction => seq![TransactionType::CustomerTransaction, TransactionType::RevenueTransaction, TransactionType::SupplierTransaction, TransactionType::EmployeeTransaction, TransactionType::OperatingExpenseTransaction, TransactionType::InterestTransaction, TransactionType::TaxTransaction],
        TransactionType::InvestingTransaction => seq![TransactionType::PropertyPlantEquipmentTransaction, TransactionType::InvestmentTransaction, TransactionType::LoanDebtTransaction],
        TransactionType::FinancingTransaction => seq![TransactionType::ShareIssuanceTransaction, TransactionType::DebtIssuanceTransaction, TransactionType::BorrowingTransaction, TransactionType::ShareRepurchaseTransaction, TransactionType::DividendTransaction, TransactionType::LeaseTransaction],
        _ => seq![],
    }
}

/// Returns the kinds of transaction grouped directly under `transaction`.
pub fn sub_transactions(transaction: &TransactionType) -> (r: Vec<TransactionType>)
    ensures
        r@ == sub_transactions_of(*transaction),
{
    match transaction {
        TransactionType::OperatingTransaction => vec![TransactionType::CustomerTransaction, TransactionType::RevenueTransaction, TransactionType::SupplierTransaction, TransactionType::EmployeeTransaction, TransactionType::OperatingExpenseTransaction, TransactionType::InterestTransaction, TransactionType::TaxTransaction],
        TransactionType::InvestingTransaction => vec![TransactionType::PropertyPlantEquipmentTransaction, TransactionType::InvestmentTransaction, TransactionType::LoanDebtTransaction],
        TransactionType::FinancingTransaction => vec![TransactionType::ShareIssuanceTransaction, TransactionType::DebtIssuanceTransaction, TransactionType::BorrowingTransaction, TransactionType::ShareRepurchaseTransaction, TransactionType::DividendTransaction, TransactionType::LeaseTransaction],
        _ => vec![],
    }
}

/// One double-entry event: `amount` is debited to `debit_account` and
/// credited to `credit_account` on `date`.
pub struct Transaction {
    pub trans_type: TransactionType,
    pub debit_account: Account,
    pub credit_account: Account,
    pub amount: i64,
    pub date: chrono::NaiveDate,
}

} // verus!
