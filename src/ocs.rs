use vstd::prelude::*;

verus! {

/// An occupation, some refined into specialisations.
#[derive(Debug, Clone, Copy, PartialEq, Eq, Hash, Structural)]
pub enum Ocs {
    Ceo,
    Cto,
    Coo,
    Developer,
    CppDeveloper,
    PythonDeveloper,
    BackendDeveloper,
    FrontendDeveloper,
    AiDeveloper,
    Engineer,
    MechanicalEngineer,
    ElectronicalEngineer,
    Sales,
    Marketer,
    MarketingManager,
    UiDesigner,
    CustomerService,
    Admin,
    Service,
    Trainer,
}

/// The specialisations of `o`, in table order.
pub open spec fn sub_occupations_of(t: Ocs) -> Seq<Ocs> {
    match t {
        Ocs::Developer => seq![Ocs::CppDeveloper, Ocs::PythonDeveloper, Ocs::BackendDeveloper, Ocs::FrontendDeveloper, Ocs::AiDeveloper],
        Ocs::Engineer => seq![Ocs::MechanicalEngineer, Ocs::ElectronicalEngineer],
        Ocs::Service => seq![Ocs::Trainer],
        _ => seq![],
    }
}

/// Returns the specialisations of `occupation`.
pub fn sub_occupations(occupation: &Ocs) -> (r: Vec<Ocs>)
    ensures
        r@ == sub_occupations_of(*occupation),
{
    match occupation {
        Ocs::Developer => vec![Ocs::CppDeveloper, Ocs::PythonDeveloper, Ocs::BackendDeveloper, Ocs::FrontendDeveloper, Ocs::AiDeveloper],
        Ocs::Engineer => vec![Ocs::MechanicalEngineer, Ocs::ElectronicalEngineer],
        Ocs::Service => vec![Ocs::Trainer],
        _ => vec![],
    }
}

} // verus!
