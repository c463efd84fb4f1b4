use entoli::ocs::{sub_occupations, Ocs};
use entoli::transaction::{sub_transactions, TransactionType};

#[test]
fn test_sub_occupations() {
    assert_eq!(
        sub_occupations(&Ocs::Developer),
        vec![
            Ocs::CppDeveloper,
            Ocs::PythonDeveloper,
            Ocs::BackendDeveloper,
            Ocs::FrontendDeveloper,
            Ocs::AiDeveloper,
        ]
    );
    assert_eq!(
        sub_occupations(&Ocs::Engineer),
        vec![Ocs::MechanicalEngineer, Ocs::ElectronicalEngineer,]
    );
    assert_eq!(sub_occupations(&Ocs::Service), vec![Ocs::Trainer,]);
}

#[test]
fn sub_occupations_of_leaf_is_empty() {
    assert_eq!(sub_occupations(&Ocs::Ceo), vec![]);
}

#[test]
fn test_sub_transactions() {
    assert_eq!(
        sub_transactions(&TransactionType::InvestingTransaction),
        vec![
            TransactionType::PropertyPlantEquipmentTransaction,
            TransactionType::InvestmentTransaction,
            TransactionType::LoanDebtTransaction,
        ]
    )
}

#[test]
fn sub_transactions_of_operating_and_leaf() {
    assert_eq!(
        sub_transactions(&TransactionType::OperatingTransaction).len(),
        7
    );
    assert_eq!(sub_transactions(&TransactionType::TaxTransaction), vec![]);
}
