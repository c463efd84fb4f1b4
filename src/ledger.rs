use vstd::prelude::*;

use crate::account::{is_desc, is_desc_account, Account};

verus! {

/// `chrono::NaiveDate`, a calendar date. Ledgers only carry dates along
/// with their entries; nothing here looks inside one.
#[verifier::external_type_specification]
#[verifier::external_body]
pub struct ExNaiveDate(chrono::NaiveDate);

/// The bound on the absolute value of each side's total that the close
/// engine accepts: with it, no sum or difference it forms leaves `i64`.
pub const TOTAL_LIMIT: i64 = 576460752303423488;

/// One side of one posted transaction.
#[derive(Debug, Clone, Copy, PartialEq)]
pub struct AccountEntry {
    pub offset_account: Account,
    pub amount: i64,
    pub date: chrono::NaiveDate,
}

/// The debit and credit entries posted to one account, oldest first.
#[derive(Debug, Clone, PartialEq)]
pub struct AccountLedger {
    pub account: Account,
    pub debits: Vec<AccountEntry>,
    pub credits: Vec<AccountEntry>,
}

/// The sum of the amounts of `s`.
pub open spec fn total(s: Seq<AccountEntry>) -> int
    decreases s.len(),
{
    if s.len() == 0 {
        0
    } else {
        total(s.drop_last()) + s.last().amount
    }
}

pub proof fn lemma_total_push(s: Seq<AccountEntry>, e: AccountEntry)
    ensures
        total(s.push(e)) == total(s) + e.amount,
{
    assert(s.push(e).drop_last() =~= s);
}

/// Balances of these accounts grow with debits.
pub open spec fn debit_normal(a: Account) -> bool {
    is_desc(a, Account::Asset) || is_desc(a, Account::Expense)
}

/// Balances of these accounts grow with credits.
pub open spec fn credit_normal(a: Account) -> bool {
    is_desc(a, Account::Liability) || is_desc(a, Account::Equity) || is_desc(a, Account::Revenue)
}

pub open spec fn fits_i64(x: int) -> bool {
    i64::MIN <= x <= i64::MAX
}

impl AccountLedger {
    pub open spec fn debit_total(&self) -> int {
        total(self.debits@)
    }

    pub open spec fn credit_total(&self) -> int {
        total(self.credits@)
    }

    /// The balance under the account's sign convention.
    pub open spec fn balance_of(&self) -> int {
        if debit_normal(self.account) {
            self.debit_total() - self.credit_total()
        } else {
            self.credit_total() - self.debit_total()
        }
    }

    /// `self` with `e` appended to its debits.
    pub open spec fn debited(&self, other: AccountLedger, e: AccountEntry) -> bool {
        &&& other.account == self.account
        &&& other.debits@ == self.debits@.push(e)
        &&& other.credits@ == self.credits@
    }

    /// `self` with `e` appended to its credits.
    pub open spec fn credited(&self, other: AccountLedger, e: AccountEntry) -> bool {
        &&& other.account == self.account
        &&& other.debits@ == self.debits@
        &&& other.credits@ == self.credits@.push(e)
    }

    /// Returns an empty ledger for `account`.
    pub fn new(account: Account) -> (r: AccountLedger)
        ensures
            r.account == account,
            r.debits@.len() == 0,
            r.credits@.len() == 0,
    {
        AccountLedger { account, debits: Vec::new(), credits: Vec::new() }
    }

    /// Returns the ledger with a debit of `amount` against `offset_account`.
    pub fn debit_added(self, offset_account: Account, amount: i64, date: chrono::NaiveDate) -> (r:
        AccountLedger)
        ensures
            self.debited(r, AccountEntry { offset_account, amount, date }),
            r.debit_total() == self.debit_total() + amount,
            r.credit_total() == self.credit_total(),
    {
        let mut ledger = self;
        let entry = AccountEntry { offset_account, amount, date };
        ledger.debits.push(entry);
        proof {
            lemma_total_push(self.debits@, entry);
        }
        ledger
    }

    /// Returns the ledger with a credit of `amount` against `offset_account`.
    pub fn credit_added(self, offset_account: Account, amount: i64, date: chrono::NaiveDate) -> (r:
        AccountLedger)
        ensures
            self.credited(r, AccountEntry { offset_account, amount, date }),
            r.debit_total() == self.debit_total(),
            r.credit_total() == self.credit_total() + amount,
    {
        let mut ledger = self;
        let entry = AccountEntry { offset_account, amount, date };
        ledger.credits.push(entry);
        proof {
            lemma_total_push(self.credits@, entry);
        }
        ledger
    }

    /// Returns the sum of the debit amounts.
    pub fn debit_amount(&self) -> (r: i64)
        requires
            fits_i64(self.debit_total()),
        ensures
            r == self.debit_total(),
    {
        sum_amounts(&self.debits)
    }

    /// Returns the sum of the credit amounts.
    pub fn credit_amount(&self) -> (r: i64)
        requires
            fits_i64(self.credit_total()),
        ensures
            r == self.credit_total(),
    {
        sum_amounts(&self.credits)
    }

    /// Returns the balance: debits less credits for asset and expense
    /// accounts, credits less debits for liability, equity and revenue
    /// accounts. Other accounts have no balance.
    pub fn balance(&self) -> (r: i64)
        requires
            debit_normal(self.account) || credit_normal(self.account),
            fits_i64(self.debit_total()),
            fits_i64(self.credit_total()),
            fits_i64(self.debit_total() - self.credit_total()),
            fits_i64(self.credit_total() - self.debit_total()),
        ensures
            r == self.balance_of(),
    {
        if is_desc_account(self.account, Account::Asset) || is_desc_account(
            self.account,
            Account::Expense,
        ) {
            self.debit_amount() - self.credit_amount()
        } else {
            self.credit_amount() - self.debit_amount()
        }
    }

    /// Returns whether the balance is zero.
    pub fn is_balanced(&self) -> (r: bool)
        requires
            debit_normal(self.account) || credit_normal(self.account),
            fits_i64(self.debit_total()),
            fits_i64(self.credit_total()),
            fits_i64(self.debit_total() - self.credit_total()),
            fits_i64(self.credit_total() - self.debit_total()),
        ensures
            r == (self.balance_of() == 0),
    {
        self.balance() == 0
    }

    /// Closes the ledger at `ending_date` and opens the next period's one at
    /// `beginning_date`: the larger side's excess is posted against
    /// `EndingBalance` on the smaller side of the closed ledger, and against
    /// `BeginningBalance` on the larger side of a fresh ledger. A ledger
    /// whose sides are equal is returned as it is, with an empty successor.
    pub fn carry_forward(self, ending_date: chrono::NaiveDate, beginning_date: chrono::NaiveDate) -> (r: (
        AccountLedger,
        AccountLedger,
    ))
        requires
            fits_i64(self.debit_total()),
            fits_i64(self.credit_total()),
            fits_i64(self.debit_total() - self.credit_total()),
            fits_i64(self.credit_total() - self.debit_total()),
        ensures
            ({
                let (closed, next) = r;
                let d = self.debit_total();
                let c = self.credit_total();
                &&& next.account == self.account
                &&& d > c ==> {
                    &&& self.credited(closed, AccountEntry {
                        offset_account: Account::EndingBalance,
                        amount: (d - c) as i64,
                        date: ending_date,
                    })
                    &&& next.debits@ == seq![AccountEntry {
                        offset_account: Account::BeginningBalance,
                        amount: (d - c) as i64,
                        date: beginning_date,
                    }]
                    &&& next.credits@.len() == 0
                }
                &&& c > d ==> {
                    &&& self.debited(closed, AccountEntry {
                        offset_account: Account::EndingBalance,
                        amount: (c - d) as i64,
                        date: ending_date,
                    })
                    &&& next.credits@ == seq![AccountEntry {
                        offset_account: Account::BeginningBalance,
                        amount: (c - d) as i64,
                        date: beginning_date,
                    }]
                    &&& next.debits@.len() == 0
                }
                &&& d == c ==> closed == self && next.debits@.len() == 0 && next.credits@.len() == 0
                &&& closed.debit_total() == closed.credit_total()
                &&& next.debit_total() - next.credit_total() == d - c
            }),
    {
        let ledger = AccountLedger::new(self.account);
        let debit_amount = self.debit_amount();
        let credit_amount = self.credit_amount();
        proof {
            assert(ledger.debits@ =~= Seq::<AccountEntry>::empty());
            assert(ledger.credits@ =~= Seq::<AccountEntry>::empty());
        }
        if debit_amount > credit_amount {
            let excess = debit_amount - credit_amount;
            let closed = self.credit_added(Account::EndingBalance, excess, ending_date);
            let next = ledger.debit_added(Account::BeginningBalance, excess, beginning_date);
            proof {
                assert(next.debits@ =~= seq![AccountEntry {
                    offset_account: Account::BeginningBalance,
                    amount: excess,
                    date: beginning_date,
                }]);
            }
            (closed, next)
        } else if credit_amount > debit_amount {
            let excess = credit_amount - debit_amount;
            let closed = self.debit_added(Account::EndingBalance, excess, ending_date);
            let next = ledger.credit_added(Account::BeginningBalance, excess, beginning_date);
            proof {
                assert(next.credits@ =~= seq![AccountEntry {
                    offset_account: Account::BeginningBalance,
                    amount: excess,
                    date: beginning_date,
                }]);
            }
            (closed, next)
        } else {
            (self, ledger)
        }
    }
}

/// The sum of the entries' amounts, accumulated wide enough that no
/// partial sum overflows.
fn sum_amounts(entries: &Vec<AccountEntry>) -> (r: i64)
    requires
        fits_i64(total(entries@)),
    ensures
        r == total(entries@),
{
    let mut acc: i128 = 0;
    let mut i: usize = 0;
    while i < entries.len()
        invariant
            i <= entries.len(),
            acc == total(entries@.take(i as int)),
            -(i as int) * 0x8000_0000_0000_0000 <= acc <= (i as int) * 0x8000_0000_0000_0000,
        decreases entries.len() - i,
    {
        proof {
            assert(entries@.take(i + 1).drop_last() =~= entries@.take(i as int));
        }
        acc = acc + entries[i].amount as i128;
        i = i + 1;
    }
    proof {
        assert(entries@.take(entries.len() as int) =~= entries@);
    }
    acc as i64
}

} // verus!
