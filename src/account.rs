use vstd::prelude::*;

verus! {

/// A category of the chart of accounts. The categories form a fixed tree
/// rooted at `AccountBase`; `children_of` gives its edges.
#[derive(Debug, Clone, Copy, PartialEq, Eq, Hash, Structural)]
pub enum Account {
    AccountBase,
    Account,
    PsuedoAccount,
    IncomeSummary,
    BeginningBalance,
    EndingBalance,
    Equity,
    PaidInCapital,
    RetainedEarnings,
    Asset,
    CurrentAsset,
    Cash,
    AccountReceivable,
    Inventory,
    PrepaidExpense,
    NonCurrentAsset,
    PropertyPlantEquipment,
    IntangibleAsset,
    Goodwill,
    Patent,
    Investment,
    Liability,
    CurrentLiability,
    UnearnedRevenue,
    AccountsPayable,
    ShortTermDebt,
    AccruedExpenses,
    NonCurrentLiability,
    LongTermDebt,
    DeferredTaxLiability,
    Revenue,
    SalesRevenue,
    ServiceRevenue,
    GovernmentGrantRevenue,
    InterestRevenue,
    RentalRevenue,
    Expense,
    Cogs,
    ProductCogs,
    ServiceCogs,
    DirectLaborCogs,
    ManufacturingOverheadCogs,
    Sga,
    Salary,
    RndExpense,
    WelfareExpense,
    TravelExpense,
    SalesExpense,
    ElectricityExpense,
    RentExpense,
    PromotionExpense,
    SalesCommissionExpense,
    CommissionExpense,
    DepreciationAndAmortization,
    DepreciationExpense,
    AmortizationExpense,
    InterestExpense,
    InterestOnLoan,
    TaxExpense,
    CorporateTax,
    CustomsDuty,
    Vat,
}

/// The immediate sub-categories of `a`, in table order (empty for a leaf).
pub open spec fn children_of(a: Account) -> Seq<Account> {
    match a {
            Account::AccountBase => seq![Account::Account, Account::PsuedoAccount],
            Account::Account => seq![Account::Equity, Account::Asset, Account::Liability, Account::Revenue, Account::Expense],
            Account::PsuedoAccount => seq![Account::IncomeSummary, Account::BeginningBalance, Account::EndingBalance],
            Account::Equity => seq![Account::PaidInCapital, Account::RetainedEarnings],
            Account::Asset => seq![Account::CurrentAsset, Account::NonCurrentAsset],
            Account::CurrentAsset => seq![Account::Cash, Account::AccountReceivable, Account::Inventory, Account::PrepaidExpense],
            Account::NonCurrentAsset => seq![Account::PropertyPlantEquipment, Account::IntangibleAsset, Account::Investment],
            Account::IntangibleAsset => seq![Account::Goodwill, Account::Patent],
            Account::Liability => seq![Account::CurrentLiability, Account::NonCurrentLiability],
            Account::CurrentLiability => seq![Account::UnearnedRevenue, Account::AccountsPayable, Account::ShortTermDebt, Account::AccruedExpenses],
            Account::NonCurrentLiability => seq![Account::LongTermDebt, Account::DeferredTaxLiability],
            Account::Revenue => seq![Account::SalesRevenue, Account::ServiceRevenue, Account::GovernmentGrantRevenue, Account::InterestRevenue, Account::RentalRevenue],
            Account::Expense => seq![Account::Cogs, Account::Sga, Account::DepreciationAndAmortization, Account::InterestExpense, Account::TaxExpense],
            Account::Cogs => seq![Account::ProductCogs, Account::ServiceCogs, Account::DirectLaborCogs, Account::ManufacturingOverheadCogs],
            Account::Sga => seq![Account::Salary, Account::RndExpense, Account::WelfareExpense, Account::TravelExpense, Account::SalesExpense, Account::ElectricityExpense, Account::RentExpense, Account::PromotionExpense, Account::SalesCommissionExpense, Account::CommissionExpense],
            Account::DepreciationAndAmortization => seq![Account::DepreciationExpense, Account::AmortizationExpense],
            Account::InterestExpense => seq![Account::InterestOnLoan],
            Account::TaxExpense => seq![Account::CorporateTax, Account::CustomsDuty, Account::Vat],
            _ => seq![],
    }
}

/// Distance of `a` from the root `AccountBase`.
pub open spec fn level(a: Account) -> nat {
    match a {
            Account::AccountBase => 0,
            Account::Account => 1,
            Account::PsuedoAccount => 1,
            Account::IncomeSummary => 2,
            Account::BeginningBalance => 2,
            Account::EndingBalance => 2,
            Account::Equity => 2,
            Account::PaidInCapital => 3,
            Account::RetainedEarnings => 3,
            Account::Asset => 2,
            Account::CurrentAsset => 3,
            Account::Cash => 4,
            Account::AccountReceivable => 4,
            Account::Inventory => 4,
            Account::PrepaidExpense => 4,
            Account::NonCurrentAsset => 3,
            Account::PropertyPlantEquipment => 4,
            Account::IntangibleAsset => 4,
            Account::Goodwill => 5,
            Account::Patent => 5,
            Account::Investment => 4,
            Account::Liability => 2,
            Account::CurrentLiability => 3,
            Account::UnearnedRevenue => 4,
            Account::AccountsPayable => 4,
            Account::ShortTermDebt => 4,
            Account::AccruedExpenses => 4,
            Account::NonCurrentLiability => 3,
            Account::LongTermDebt => 4,
            Account::DeferredTaxLiability => 4,
            Account::Revenue => 2,
            Account::SalesRevenue => 3,
            Account::ServiceRevenue => 3,
            Account::GovernmentGrantRevenue => 3,
            Account::InterestRevenue => 3,
            Account::RentalRevenue => 3,
            Account::Expense => 2,
            Account::Cogs => 3,
            Account::ProductCogs => 4,
            Account::ServiceCogs => 4,
            Account::DirectLaborCogs => 4,
            Account::ManufacturingOverheadCogs => 4,
            Account::Sga => 3,
            Account::Salary => 4,
            Account::RndExpense => 4,
            Account::WelfareExpense => 4,
            Account::TravelExpense => 4,
            Account::SalesExpense => 4,
            Account::ElectricityExpense => 4,
            Account::RentExpense => 4,
            Account::PromotionExpense => 4,
            Account::SalesCommissionExpense => 4,
            Account::CommissionExpense => 4,
            Account::DepreciationAndAmortization => 3,
            Account::DepreciationExpense => 4,
            Account::AmortizationExpense => 4,
            Account::InterestExpense => 3,
            Account::InterestOnLoan => 4,
            Account::TaxExpense => 3,
            Account::CorporateTax => 4,
            Account::CustomsDuty => 4,
            Account::Vat => 4,
    }
}

/// How many levels may still lie below `a`; it drops by one from a
/// category to each of its children.
pub open spec fn height(a: Account) -> nat {
    (5 - level(a)) as nat
}

/// `a` has no sub-categories.
pub open spec fn is_leaf(a: Account) -> bool {
    children_of(a).len() == 0
}

/// Every child lies exactly one level below its parent.
pub proof fn lemma_children_deeper(a: Account)
    ensures
        level(a) <= 5,
        forall|i: int|
            0 <= i < children_of(a).len() ==> {
                &&& level(#[trigger] children_of(a)[i]) == level(a) + 1
                &&& parent_of(children_of(a)[i]) == Some(a)
                &&& child_index(children_of(a)[i]) == i
                &&& level(children_of(a)[i]) <= 5
                &&& height(children_of(a)[i]) < height(a)
            },
{
}

/// The category directly above `a`; only the root has none.
pub open spec fn parent_of(a: Account) -> Option<Account> {
    match a {
        Account::AccountBase => None,
        Account::Account => Some(Account::AccountBase),
        Account::PsuedoAccount => Some(Account::AccountBase),
        Account::IncomeSummary => Some(Account::PsuedoAccount),
        Account::BeginningBalance => Some(Account::PsuedoAccount),
        Account::EndingBalance => Some(Account::PsuedoAccount),
        Account::Equity => Some(Account::Account),
        Account::PaidInCapital => Some(Account::Equity),
        Account::RetainedEarnings => Some(Account::Equity),
        Account::Asset => Some(Account::Account),
        Account::CurrentAsset => Some(Account::Asset),
        Account::Cash => Some(Account::CurrentAsset),
        Account::AccountReceivable => Some(Account::CurrentAsset),
        Account::Inventory => Some(Account::CurrentAsset),
        Account::PrepaidExpense => Some(Account::CurrentAsset),
        Account::NonCurrentAsset => Some(Account::Asset),
        Account::PropertyPlantEquipment => Some(Account::NonCurrentAsset),
        Account::IntangibleAsset => Some(Account::NonCurrentAsset),
        Account::Goodwill => Some(Account::IntangibleAsset),
        Account::Patent => Some(Account::IntangibleAsset),
        Account::Investment => Some(Account::NonCurrentAsset),
        Account::Liability => Some(Account::Account),
        Account::CurrentLiability => Some(Account::Liability),
        Account::UnearnedRevenue => Some(Account::CurrentLiability),
        Account::AccountsPayable => Some(Account::CurrentLiability),
        Account::ShortTermDebt => Some(Account::CurrentLiability),
        Account::AccruedExpenses => Some(Account::CurrentLiability),
        Account::NonCurrentLiability => Some(Account::Liability),
        Account::LongTermDebt => Some(Account::NonCurrentLiability),
        Account::DeferredTaxLiability => Some(Account::NonCurrentLiability),
        Account::Revenue => Some(Account::Account),
        Account::SalesRevenue => Some(Account::Revenue),
        Account::ServiceRevenue => Some(Account::Revenue),
        Account::GovernmentGrantRevenue => Some(Account::Revenue),
        Account::InterestRevenue => Some(Account::Revenue),
        Account::RentalRevenue => Some(Account::Revenue),
        Account::Expense => Some(Account::Account),
        Account::Cogs => Some(Account::Expense),
        Account::ProductCogs => Some(Account::Cogs),
        Account::ServiceCogs => Some(Account::Cogs),
        Account::DirectLaborCogs => Some(Account::Cogs),
        Account::ManufacturingOverheadCogs => Some(Account::Cogs),
        Account::Sga => Some(Account::Expense),
        Account::Salary => Some(Account::Sga),
        Account::RndExpense => Some(Account::Sga),
        Account::WelfareExpense => Some(Account::Sga),
        Account::TravelExpense => Some(Account::Sga),
        Account::SalesExpense => Some(Account::Sga),
        Account::ElectricityExpense => Some(Account::Sga),
        Account::RentExpense => Some(Account::Sga),
        Account::PromotionExpense => Some(Account::Sga),
        Account::SalesCommissionExpense => Some(Account::Sga),
        Account::CommissionExpense => Some(Account::Sga),
        Account::DepreciationAndAmortization => Some(Account::Expense),
        Account::DepreciationExpense => Some(Account::DepreciationAndAmortization),
        Account::AmortizationExpense => Some(Account::DepreciationAndAmortization),
        Account::InterestExpense => Some(Account::Expense),
        Account::InterestOnLoan => Some(Account::InterestExpense),
        Account::TaxExpense => Some(Account::Expense),
        Account::CorporateTax => Some(Account::TaxExpense),
        Account::CustomsDuty => Some(Account::TaxExpense),
        Account::Vat => Some(Account::TaxExpense),
    }
}

/// The position of `a` among the children of its parent.
pub open spec fn child_index(a: Account) -> int {
    match a {
        Account::PsuedoAccount => 1,
        Account::BeginningBalance => 1,
        Account::EndingBalance => 2,
        Account::RetainedEarnings => 1,
        Account::Asset => 1,
        Account::AccountReceivable => 1,
        Account::Inventory => 2,
        Account::PrepaidExpense => 3,
        Account::NonCurrentAsset => 1,
        Account::IntangibleAsset => 1,
        Account::Patent => 1,
        Account::Investment => 2,
        Account::Liability => 2,
        Account::AccountsPayable => 1,
        Account::ShortTermDebt => 2,
        Account::AccruedExpenses => 3,
        Account::NonCurrentLiability => 1,
        Account::DeferredTaxLiability => 1,
        Account::Revenue => 3,
        Account::ServiceRevenue => 1,
        Account::GovernmentGrantRevenue => 2,
        Account::InterestRevenue => 3,
        Account::RentalRevenue => 4,
        Account::Expense => 4,
        Account::ServiceCogs => 1,
        Account::DirectLaborCogs => 2,
        Account::ManufacturingOverheadCogs => 3,
        Account::Sga => 1,
        Account::RndExpense => 1,
        Account::WelfareExpense => 2,
        Account::TravelExpense => 3,
        Account::SalesExpense => 4,
        Account::ElectricityExpense => 5,
        Account::RentExpense => 6,
        Account::PromotionExpense => 7,
        Account::SalesCommissionExpense => 8,
        Account::CommissionExpense => 9,
        Account::DepreciationAndAmortization => 2,
        Account::AmortizationExpense => 1,
        Account::InterestExpense => 3,
        Account::TaxExpense => 4,
        Account::CustomsDuty => 1,
        Account::Vat => 2,
        _ => 0,
    }
}

/// The parent table agrees with the children table and with the levels.
pub proof fn lemma_parent_of(a: Account)
    ensures
        parent_of(a) is None <==> a == Account::AccountBase,
        level(a) == 0 <==> a == Account::AccountBase,
        parent_of(a) is Some ==> {
            let p = parent_of(a)->0;
            &&& level(a) == level(p) + 1
            &&& 0 <= child_index(a) < children_of(p).len()
            &&& children_of(p)[child_index(a)] == a
        },
{
}

/// `d` is `a` itself or lies below it: climbing from `d` through its
/// parents reaches `a`.
pub open spec fn is_desc(d: Account, a: Account) -> bool
    decreases level(d),
{
    d == a || match parent_of(d) {
        Some(p) => level(p) < level(d) && is_desc(p, a),
        None => false,
    }
}

/// `a` followed by the subtrees of its children, last child first: the
/// order in which a stack-driven walk that pushes the children in table
/// order visits them.
pub open spec fn descendants(a: Account) -> Seq<Account>
    decreases height(a), 1nat, 0nat,
{
    seq![a] + child_blocks(a, children_of(a).len())
}

/// The subtrees of the first `k` children of `a`, child `k - 1` first.
pub open spec fn child_blocks(a: Account, k: nat) -> Seq<Account>
    decreases height(a), 0nat, k,
{
    if k == 0 || k > children_of(a).len() {
        seq![]
    } else {
        let c = children_of(a)[k - 1];
        let head = if height(c) < height(a) {
            descendants(c)
        } else {
            seq![]
        };
        head + child_blocks(a, (k - 1) as nat)
    }
}

/// What a walk still owes for a stack of pending categories (top last).
pub open spec fn stack_order(s: Seq<Account>) -> Seq<Account>
    decreases s.len(),
{
    if s.len() == 0 {
        seq![]
    } else {
        descendants(s.last()) + stack_order(s.drop_last())
    }
}

/// The categories on the way down from `from` to `target`: `from` itself
/// and each category below it, up to but not including `target` (empty
/// when the two are equal). Each step takes the first child whose subtree
/// holds `target`.
pub open spec fn path_from(target: Account, from: Account) -> Seq<Account>
    decreases height(from), 1nat, 0nat,
{
    if from == target {
        seq![]
    } else {
        seq![from] + path_among(target, from, 0)
    }
}

/// `path_from` continued through the first child at index `k` or later
/// whose subtree holds `target`.
pub open spec fn path_among(target: Account, from: Account, k: nat) -> Seq<Account>
    decreases height(from), 0nat, (children_of(from).len() - k) as nat,
{
    if k < children_of(from).len() {
        let c = children_of(from)[k as int];
        if height(c) < height(from) && is_desc(target, c) {
            path_from(target, c)
        } else {
            path_among(target, from, k + 1)
        }
    } else {
        seq![]
    }
}

/// The root-to-parent path of `a` when `a` lies under `AccountBase`.
pub open spec fn ancestors(a: Account) -> Seq<Account> {
    if is_desc(a, Account::AccountBase) {
        path_from(a, Account::AccountBase)
    } else {
        seq![]
    }
}

/// Returns the immediate sub-categories of `account`, in table order.
pub fn sub_accounts(account: Account) -> (r: Vec<Account>)
    ensures
        r@ == children_of(account),
{
    match account {
        Account::AccountBase => vec![Account::Account, Account::PsuedoAccount],
        Account::Account => vec![Account::Equity, Account::Asset, Account::Liability, Account::Revenue, Account::Expense],
        Account::PsuedoAccount => vec![Account::IncomeSummary, Account::BeginningBalance, Account::EndingBalance],
        Account::Equity => vec![Account::PaidInCapital, Account::RetainedEarnings],
        Account::Asset => vec![Account::CurrentAsset, Account::NonCurrentAsset],
        Account::CurrentAsset => vec![Account::Cash, Account::AccountReceivable, Account::Inventory, Account::PrepaidExpense],
        Account::NonCurrentAsset => vec![Account::PropertyPlantEquipment, Account::IntangibleAsset, Account::Investment],
        Account::IntangibleAsset => vec![Account::Goodwill, Account::Patent],
        Account::Liability => vec![Account::CurrentLiability, Account::NonCurrentLiability],
        Account::CurrentLiability => vec![Account::UnearnedRevenue, Account::AccountsPayable, Account::ShortTermDebt, Account::AccruedExpenses],
        Account::NonCurrentLiability => vec![Account::LongTermDebt, Account::DeferredTaxLiability],
        Account::Revenue => vec![Account::SalesRevenue, Account::ServiceRevenue, Account::GovernmentGrantRevenue, Account::InterestRevenue, Account::RentalRevenue],
        Account::Expense => vec![Account::Cogs, Account::Sga, Account::DepreciationAndAmortization, Account::InterestExpense, Account::TaxExpense],
        Account::Cogs => vec![Account::ProductCogs, Account::ServiceCogs, Account::DirectLaborCogs, Account::ManufacturingOverheadCogs],
        Account::Sga => vec![Account::Salary, Account::RndExpense, Account::WelfareExpense, Account::TravelExpense, Account::SalesExpense, Account::ElectricityExpense, Account::RentExpense, Account::PromotionExpense, Account::SalesCommissionExpense, Account::CommissionExpense],
        Account::DepreciationAndAmortization => vec![Account::DepreciationExpense, Account::AmortizationExpense],
        Account::InterestExpense => vec![Account::InterestOnLoan],
        Account::TaxExpense => vec![Account::CorporateTax, Account::CustomsDuty, Account::Vat],
        _ => vec![],
    }
}

/// A category lies under `f` when it lies under a child of `f`.
pub proof fn lemma_desc_via_child(t: Account, f: Account, i: int)
    requires
        0 <= i < children_of(f).len(),
        is_desc(t, children_of(f)[i]),
    ensures
        is_desc(t, f),
    decreases level(t),
{
    lemma_children_deeper(f);
    lemma_parent_of(t);
    if t != children_of(f)[i] {
        lemma_desc_via_child(parent_of(t)->0, f, i);
    } else {
        assert(is_desc(f, f));
    }
}

/// A category strictly below `f` lies under one of `f`'s children.
pub proof fn lemma_desc_child_witness(t: Account, f: Account) -> (i: int)
    requires
        t != f,
        is_desc(t, f),
    ensures
        0 <= i < children_of(f).len(),
        is_desc(t, children_of(f)[i]),
    decreases level(t),
{
    lemma_parent_of(t);
    let p = parent_of(t)->0;
    if p == f {
        child_index(t)
    } else {
        let i = lemma_desc_child_witness(p, f);
        i
    }
}

/// A category other than `f` that lies under no child of `f` does not lie
/// under `f`.
pub proof fn lemma_not_desc_of_children(t: Account, f: Account)
    requires
        t != f,
        forall|i: int| 0 <= i < children_of(f).len() ==> !is_desc(t, #[trigger] children_of(f)[i]),
    ensures
        !is_desc(t, f),
{
    if is_desc(t, f) {
        let i = lemma_desc_child_witness(t, f);
    }
}

/// Pushing the first `k` children of `a` onto a stack puts their subtrees,
/// last child first, in front of what the stack already owed.
pub proof fn lemma_stack_push_children(p: Seq<Account>, a: Account, k: nat)
    requires
        k <= children_of(a).len(),
    ensures
        stack_order(p + children_of(a).take(k as int)) == child_blocks(a, k) + stack_order(p),
    decreases k,
{
    lemma_children_deeper(a);
    let q = p + children_of(a).take(k as int);
    if k == 0 {
        assert(q =~= p);
    } else {
        lemma_stack_push_children(p, a, (k - 1) as nat);
        let c = children_of(a)[k - 1];
        assert(q.last() == c);
        assert(q.drop_last() =~= p + children_of(a).take(k - 1));
        assert(stack_order(q) == descendants(c) + stack_order(q.drop_last()));
        assert(child_blocks(a, k) == descendants(c) + child_blocks(a, (k - 1) as nat));
        assert(descendants(c) + (child_blocks(a, (k - 1) as nat) + stack_order(p)) =~= (descendants(c)
            + child_blocks(a, (k - 1) as nat)) + stack_order(p));
    }
}

/// Taking one category off a stack: it is visited first, then what its
/// children owe, then the rest of the stack.
proof fn lemma_stack_pop(s: Seq<Account>)
    requires
        s.len() > 0,
    ensures
        stack_order(s) == seq![s.last()] + (stack_order(
            s.drop_last() + children_of(s.last()),
        )),
{
    let a = s.last();
    let ch = children_of(a);
    lemma_stack_push_children(s.drop_last(), a, ch.len());
    assert(ch.take(ch.len() as int) =~= ch);
    assert(stack_order(s) == descendants(a) + stack_order(s.drop_last()));
    assert(seq![a] + (child_blocks(a, ch.len()) + stack_order(s.drop_last())) =~= (seq![a]
        + child_blocks(a, ch.len())) + stack_order(s.drop_last()));
}

/// Returns `account` and every category below it, each once: `account`
/// first, then the subtrees of its children, last child first.
pub fn descendant_accounts(account: &Account) -> (r: Vec<Account>)
    ensures
        r@ == descendants(*account),
{
    let mut accounts: Vec<Account> = Vec::new();
    let mut stack: Vec<Account> = vec![*account];
    proof {
        let s0 = seq![*account];
        assert(s0.drop_last() =~= Seq::<Account>::empty());
        assert(stack_order(s0.drop_last()) =~= Seq::<Account>::empty());
        assert(stack@ == s0);
        assert(stack_order(stack@) =~= descendants(*account));
        assert(accounts@ + stack_order(stack@) =~= descendants(*account));
    }
    while stack.len() > 0
        invariant
            accounts@ + stack_order(stack@) == descendants(*account),
        decreases stack_order(stack@).len(),
    {
        let ghost before = stack@;
        let current = stack.pop().unwrap();
        proof {
            lemma_stack_pop(before);
            assert(before.drop_last() == stack@);
        }
        accounts.push(current);
        let mut children = sub_accounts(current);
        stack.append(&mut children);
        proof {
            assert(accounts@ + stack_order(stack@) =~= accounts@.drop_last() + (seq![current]
                + stack_order(stack@)));
        }
    }
    accounts
}

/// Returns whether `account` is `ref_account` or lies below it.
pub fn is_desc_account(account: Account, ref_account: Account) -> (r: bool)
    ensures
        r == is_desc(account, ref_account),
{
    let mut stack: Vec<Account> = vec![ref_account];
    assert(stack@[0] == ref_account);
    while stack.len() > 0
        invariant
            is_desc(account, ref_account) == exists|j: int|
                0 <= j < stack@.len() && #[trigger] is_desc(account, stack@[j]),
        decreases stack_order(stack@).len(),
    {
        let ghost before = stack@;
        let current = stack.pop().unwrap();
        proof {
            lemma_stack_pop(before);
            assert(current == before[before.len() - 1]);
        }
        if account == current {
            assert(is_desc(account, before[before.len() - 1]));
            return true;
        }
        let mut children = sub_accounts(current);
        stack.append(&mut children);
        proof {
            lemma_children_deeper(current);
            let ch = children_of(current);
            let rest = before.drop_last();
            assert(stack@ =~= rest + ch);
            if exists|j: int| 0 <= j < before.len() && #[trigger] is_desc(account, before[j]) {
                let j = choose|j: int| 0 <= j < before.len() && #[trigger] is_desc(account, before[j]);
                if j == before.len() - 1 {
                    assert(is_desc(account, current));
                    let i = lemma_desc_child_witness(account, current);
                    assert(stack@[rest.len() + i] == ch[i]);
                    assert(is_desc(account, stack@[rest.len() + i]));
                } else {
                    assert(stack@[j] == before[j]);
                }
            }
            if exists|j: int| 0 <= j < stack@.len() && #[trigger] is_desc(account, stack@[j]) {
                let j = choose|j: int| 0 <= j < stack@.len() && #[trigger] is_desc(account, stack@[j]);
                if j < rest.len() {
                    assert(before[j] == stack@[j]);
                } else {
                    let i = j - rest.len();
                    assert(ch[i] == stack@[j]);
                    lemma_desc_via_child(account, current, i);
                    assert(before[before.len() - 1] == current);
                }
            }
        }
    }
    false
}

/// The categories from `from` down to the parent of `target`, `from`
/// first (empty when the two are equal), or `None` when `target` does not
/// lie under `from`.
fn find_path(from: Account, target: Account) -> (r: Option<Vec<Account>>)
    ensures
        r is Some <==> is_desc(target, from),
        r is Some ==> r->0@ == path_from(target, from),
    decreases height(from),
{
    if from == target {
        return Some(Vec::new());
    }
    let children = sub_accounts(from);
    proof {
        lemma_children_deeper(from);
    }
    let mut i: usize = 0;
    while i < children.len()
        invariant
            children@ == children_of(from),
            from != target,
            i <= children.len(),
            forall|j: int| 0 <= j < i ==> !#[trigger] is_desc(target, children@[j]),
            path_among(target, from, 0) == path_among(target, from, i as nat),
            forall|j: int| 0 <= j < children@.len() ==> height(#[trigger] children@[j]) < height(from),
        decreases children.len() - i,
    {
        let found = find_path(children[i], target);
        match found {
            Some(below) => {
                let mut path: Vec<Account> = vec![from];
                let mut below = below;
                path.append(&mut below);
                proof {
                    assert(path_among(target, from, i as nat) == path_from(target, children@[i as int]));
                    assert(is_desc(target, children_of(from)[i as int]));
                    lemma_desc_via_child(target, from, i as int);
                }
                return Some(path);
            },
            None => {},
        }
        i = i + 1;
    }
    proof {
        assert forall|j: int| 0 <= j < children_of(from).len() && height(children_of(from)[j]) < height(from)
            implies !#[trigger] is_desc(target, children_of(from)[j]) by {
            assert(children@[j] == children_of(from)[j]);
        }
        lemma_not_desc_of_children(target, from);
    }
    None
}

/// Returns the path from the root `AccountBase` down to the parent of
/// `account`, root first (empty for the root itself).
pub fn ancestor_accounts(account: Account) -> (r: Vec<Account>)
    ensures
        r@ == ancestors(account),
        r@.len() == level(account),
        forall|i: int| 0 <= i < r@.len() ==> level(#[trigger] r@[i]) == i && is_desc(account, r@[i]),
{
    proof {
        lemma_desc_root(account);
        lemma_path_from(account, Account::AccountBase);
        lemma_parent_of(Account::AccountBase);
    }
    match find_path(Account::AccountBase, account) {
        Some(path) => path,
        None => Vec::new(),
    }
}

/// Returns whether `ref_account` is `account` or one of its ancestors,
/// that is whether `account` lies in the subtree of `ref_account`.
pub fn is_ances_account(account: Account, ref_account: Account) -> (r: bool)
    ensures
        r == is_desc(account, ref_account),
{
    is_desc_account(account, ref_account)
}

/// A category lies no higher than any category it is under, and on the
/// same level only under itself.
pub proof fn lemma_desc_level(d: Account, a: Account)
    requires
        is_desc(d, a),
    ensures
        level(d) >= level(a),
        level(d) == level(a) ==> d == a,
    decreases level(d),
{
    lemma_parent_of(d);
    if d != a {
        lemma_desc_level(parent_of(d)->0, a);
    }
}

/// Lying under is transitive.
pub proof fn lemma_desc_trans(a: Account, b: Account, c: Account)
    requires
        is_desc(a, b),
        is_desc(b, c),
    ensures
        is_desc(a, c),
    decreases level(a),
{
    lemma_parent_of(a);
    if a != b {
        lemma_desc_trans(parent_of(a)->0, b, c);
    }
}

/// A category lies under at most one category of each level.
pub proof fn lemma_desc_unique(d: Account, a: Account, b: Account)
    requires
        is_desc(d, a),
        is_desc(d, b),
        level(a) == level(b),
    ensures
        a == b,
    decreases level(d),
{
    lemma_parent_of(d);
    if d == a {
        lemma_desc_level(d, b);
    } else if d == b {
        lemma_desc_level(d, a);
    } else {
        lemma_desc_unique(parent_of(d)->0, a, b);
    }
}

/// Only a leaf itself lies under a leaf.
pub proof fn lemma_desc_leaf(d: Account, a: Account)
    requires
        is_desc(d, a),
        is_leaf(a),
    ensures
        d == a,
{
    if d != a {
        let i = lemma_desc_child_witness(d, a);
    }
}

/// Every category lies under the root.
pub proof fn lemma_desc_root(a: Account)
    ensures
        is_desc(a, Account::AccountBase),
    decreases level(a),
{
    lemma_parent_of(a);
    if a != Account::AccountBase {
        lemma_desc_root(parent_of(a)->0);
    }
}

/// At most one child of `a` has `d` in its subtree.
pub proof fn lemma_desc_one_child(d: Account, a: Account, i: int, j: int)
    requires
        0 <= i < children_of(a).len(),
        0 <= j < children_of(a).len(),
        is_desc(d, children_of(a)[i]),
        is_desc(d, children_of(a)[j]),
    ensures
        i == j,
{
    lemma_children_deeper(a);
    lemma_desc_unique(d, children_of(a)[i], children_of(a)[j]);
}

/// How many times `x` occurs in `s`.
pub open spec fn count_in(s: Seq<Account>, x: Account) -> nat
    decreases s.len(),
{
    if s.len() == 0 {
        0
    } else {
        count_in(s.drop_last(), x) + if s.last() == x {
            1nat
        } else {
            0nat
        }
    }
}

pub proof fn lemma_count_in_add(s: Seq<Account>, t: Seq<Account>, x: Account)
    ensures
        count_in(s + t, x) == count_in(s, x) + count_in(t, x),
    decreases t.len(),
{
    if t.len() > 0 {
        assert((s + t).drop_last() =~= s + t.drop_last());
        lemma_count_in_add(s, t.drop_last(), x);
    } else {
        assert(s + t =~= s);
    }
}

/// The walk below `a` meets `x` once if `x` lies under `a`, else never.
pub proof fn lemma_descendants_count(a: Account, x: Account)
    ensures
        count_in(descendants(a), x) == if is_desc(x, a) {
            1nat
        } else {
            0nat
        },
    decreases height(a), 1nat, 0nat,
{
    let n = children_of(a).len();
    lemma_count_in_add(seq![a], child_blocks(a, n), x);
    assert(seq![a].drop_last() =~= Seq::<Account>::empty());
    assert(count_in(Seq::<Account>::empty(), x) == 0);
    assert(count_in(seq![a], x) == if a == x {
        1nat
    } else {
        0nat
    });
    assert(descendants(a) == seq![a] + child_blocks(a, n));
    lemma_child_blocks_count(a, x, n);
    if x == a {
        if exists|j: int| 0 <= j < n && #[trigger] is_desc(x, children_of(a)[j]) {
            let j = choose|j: int| 0 <= j < n && #[trigger] is_desc(x, children_of(a)[j]);
            lemma_children_deeper(a);
            lemma_desc_level(x, children_of(a)[j]);
        }
    } else if is_desc(x, a) {
        let i = lemma_desc_child_witness(x, a);
        assert(is_desc(x, children_of(a)[i]));
    } else {
        if exists|j: int| 0 <= j < n && #[trigger] is_desc(x, children_of(a)[j]) {
            let j = choose|j: int| 0 <= j < n && #[trigger] is_desc(x, children_of(a)[j]);
            lemma_desc_via_child(x, a, j);
        }
    }
}

/// The subtrees of the first `k` children meet `x` once if one of those
/// children has `x` below it, else never.
proof fn lemma_child_blocks_count(a: Account, x: Account, k: nat)
    requires
        k <= children_of(a).len(),
    ensures
        count_in(child_blocks(a, k), x) == if exists|j: int|
            0 <= j < k && #[trigger] is_desc(x, children_of(a)[j]) {
            1nat
        } else {
            0nat
        },
    decreases height(a), 0nat, k,
{
    lemma_children_deeper(a);
    if k > 0 {
        let c = children_of(a)[k - 1];
        lemma_descendants_count(c, x);
        lemma_child_blocks_count(a, x, (k - 1) as nat);
        lemma_count_in_add(descendants(c), child_blocks(a, (k - 1) as nat), x);
        if is_desc(x, c) {
            if exists|j: int| 0 <= j < k - 1 && #[trigger] is_desc(x, children_of(a)[j]) {
                let j = choose|j: int| 0 <= j < k - 1 && #[trigger] is_desc(x, children_of(a)[j]);
                lemma_desc_one_child(x, a, j, k - 1);
            }
            assert(is_desc(x, children_of(a)[k - 1]));
        } else {
            if exists|j: int| 0 <= j < k && #[trigger] is_desc(x, children_of(a)[j]) {
                let j = choose|j: int| 0 <= j < k && #[trigger] is_desc(x, children_of(a)[j]);
                assert(j != k - 1);
                assert(0 <= j < k - 1 && is_desc(x, children_of(a)[j]));
            }
        }
    }
}

/// The walk from the root visits every category of the chart exactly once.
pub proof fn lemma_taxonomy_closure()
    ensures
        forall|x: Account| #[trigger] count_in(descendants(Account::AccountBase), x) == 1,
{
    assert forall|x: Account| #[trigger] count_in(descendants(Account::AccountBase), x) == 1 by {
        lemma_desc_root(x);
        lemma_descendants_count(Account::AccountBase, x);
    }
}

/// The search from `k` on meets the one child `j` whose subtree holds
/// `target`.
proof fn lemma_path_among(target: Account, from: Account, k: nat, j: int)
    requires
        k <= j < children_of(from).len(),
        is_desc(target, children_of(from)[j]),
    ensures
        path_among(target, from, k) == path_from(target, children_of(from)[j]),
    decreases j - k,
{
    lemma_children_deeper(from);
    if is_desc(target, children_of(from)[k as int]) {
        lemma_desc_one_child(target, from, k as int, j);
    } else {
        lemma_path_among(target, from, k + 1, j);
    }
}

/// The path from `from` down to `target` holds one category of each level
/// from `from`'s to just above `target`'s, each with `target` below it.
pub proof fn lemma_path_from(target: Account, from: Account)
    requires
        is_desc(target, from),
    ensures
        path_from(target, from).len() == level(target) - level(from),
        forall|i: int|
            0 <= i < path_from(target, from).len() ==> level(#[trigger] path_from(target, from)[i])
                == level(from) + i && is_desc(target, path_from(target, from)[i]),
    decreases height(from),
{
    lemma_desc_level(target, from);
    if target != from {
        lemma_children_deeper(from);
        let j = lemma_desc_child_witness(target, from);
        let c = children_of(from)[j];
        lemma_path_among(target, from, 0, j);
        lemma_path_from(target, c);
        let rest = path_from(target, c);
        assert(path_from(target, from) == seq![from] + rest);
        assert forall|i: int| 0 < i < path_from(target, from).len() implies level(
            #[trigger] path_from(target, from)[i],
        ) == level(from) + i && is_desc(target, path_from(target, from)[i]) by {
            assert(path_from(target, from)[i] == rest[i - 1]);
        }
        assert(path_from(target, from)[0] == from);
    }
}

} // verus!
