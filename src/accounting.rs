use vstd::prelude::*;

use crate::account::{
    is_desc, is_desc_account, is_leaf, lemma_desc_leaf, lemma_desc_trans, lemma_desc_unique,
    lemma_parent_of, Account,
};
use crate::ledger::{debit_normal, lemma_total_push, AccountEntry, AccountLedger, TOTAL_LIMIT};
use crate::ledger_tree::{
    hits, is_fresh, lemma_mirror_count, lemma_mirror_kept, mirrors, LedgerTree,
};
use crate::transaction::Transaction;
use crate::tree::{all_nodes, lemma_tree_sum_shift, node_at, same_shape, tree_sum, Tree};

verus! {

/// `new` is `old` with `e` appended to the debits of `account`'s ledger
/// and of every ledger above it.
pub open spec fn debit_posted(old: LedgerTree, new: LedgerTree, account: Account, e: AccountEntry) -> bool {
    &&& same_shape(old, new)
    &&& forall|p: Seq<int>|
        #![trigger node_at(old, p)]
        node_at(old, p) is Some ==> if is_desc(account, node_at(old, p)->0.account) {
            node_at(old, p)->0.debited(node_at(new, p)->0, e)
        } else {
            node_at(new, p) == node_at(old, p)
        }
}

/// `new` is `old` with `e` appended to the credits of `account`'s ledger
/// and of every ledger above it.
pub open spec fn credit_posted(old: LedgerTree, new: LedgerTree, account: Account, e: AccountEntry) -> bool {
    &&& same_shape(old, new)
    &&& forall|p: Seq<int>|
        #![trigger node_at(old, p)]
        node_at(old, p) is Some ==> if is_desc(account, node_at(old, p)->0.account) {
            node_at(old, p)->0.credited(node_at(new, p)->0, e)
        } else {
            node_at(new, p) == node_at(old, p)
        }
}

/// The entry that a transaction leaves on its debited account.
pub open spec fn debit_entry(t: Transaction) -> AccountEntry {
    AccountEntry { offset_account: t.credit_account, amount: t.amount, date: t.date }
}

/// The entry that a transaction leaves on its credited account.
pub open spec fn credit_entry(t: Transaction) -> AccountEntry {
    AccountEntry { offset_account: t.debit_account, amount: t.amount, date: t.date }
}

/// `new` is `old` after the debit side and then the credit side of `t`.
pub open spec fn transaction_posted(old: LedgerTree, new: LedgerTree, t: Transaction) -> bool {
    exists|mid: LedgerTree|
        debit_posted(old, mid, t.debit_account, debit_entry(t)) && #[trigger] credit_posted(
            mid,
            new,
            t.credit_account,
            credit_entry(t),
        )
}

/// `trees` runs from `old` to `new`, each step posting one of `txs` in order.
pub open spec fn posting_steps(trees: Seq<LedgerTree>, txs: Seq<Transaction>) -> bool {
    &&& trees.len() == txs.len() + 1
    &&& forall|i: int|
        0 <= i < txs.len() ==> #[trigger] transaction_posted(trees[i], trees[i + 1], txs[i])
}

/// `new` is `old` after posting `txs` in order.
pub open spec fn posted(old: LedgerTree, new: LedgerTree, txs: Seq<Transaction>) -> bool {
    exists|trees: Seq<LedgerTree>|
        posting_steps(trees, txs) && trees[0] == old && #[trigger] trees[txs.len() as int] == new
}

/// Posts one transaction: its debit to the debited account's chain of
/// ledgers, then its credit to the credited account's chain.
fn post_transaction(ledger: LedgerTree, t: &Transaction) -> (r: LedgerTree)
    ensures
        transaction_posted(ledger, r, *t),
{
    let debit_account = t.debit_account;
    let credit_account = t.credit_account;
    let amount = t.amount;
    let date = t.date;
    let add_debit = |l: AccountLedger| -> (out: AccountLedger)
        ensures
            l.debited(out, AccountEntry { offset_account: credit_account, amount, date }),
        { l.debit_added(credit_account, amount, date) };
    let add_credit = |l: AccountLedger| -> (out: AccountLedger)
        ensures
            l.credited(out, AccountEntry { offset_account: debit_account, amount, date }),
        { l.credit_added(debit_account, amount, date) };
    let ghost old = ledger;
    let mid = ledger.map_ances_ledgers(debit_account, add_debit);
    let ghost mid_view = mid;
    let r = mid.map_ances_ledgers(credit_account, add_credit);
    proof {
        assert forall|p: Seq<int>| #[trigger] node_at(old, p) is Some implies (if is_desc(
            debit_account,
            node_at(old, p)->0.account,
        ) {
            node_at(old, p)->0.debited(node_at(mid_view, p)->0, debit_entry(*t))
        } else {
            node_at(mid_view, p) == node_at(old, p)
        }) by {
            if is_desc(debit_account, node_at(old, p)->0.account) {
                assert(call_ensures(add_debit, (node_at(old, p)->0,), node_at(mid_view, p)->0));
            }
        }
        assert forall|p: Seq<int>| #[trigger] node_at(mid_view, p) is Some implies (if is_desc(
            credit_account,
            node_at(mid_view, p)->0.account,
        ) {
            node_at(mid_view, p)->0.credited(node_at(r, p)->0, credit_entry(*t))
        } else {
            node_at(r, p) == node_at(mid_view, p)
        }) by {
            if is_desc(credit_account, node_at(mid_view, p)->0.account) {
                assert(call_ensures(add_credit, (node_at(mid_view, p)->0,), node_at(r, p)->0));
            }
        }
        assert(debit_posted(old, mid_view, t.debit_account, debit_entry(*t)));
        assert(credit_posted(mid_view, r, t.credit_account, credit_entry(*t)));
    }
    r
}

/// Posts the period's transactions in order, each to the chains of
/// ledgers of its debited and of its credited account.
pub fn posting(carry_forward_ledger: &mut LedgerTree, current_period_transactions: Vec<Transaction>)
    ensures
        posted(*old(carry_forward_ledger), *final(carry_forward_ledger), current_period_transactions@),
{
    let txs = current_period_transactions;
    let ghost trees = seq![*carry_forward_ledger];
    let mut i: usize = 0;
    while i < txs.len()
        invariant
            i <= txs.len(),
            posting_steps(trees, txs@.take(i as int)),
            trees[0] == *old(carry_forward_ledger),
            trees[i as int] == *carry_forward_ledger,
        decreases txs.len() - i,
    {
        let mut tree = Tree { value: AccountLedger::new(Account::AccountBase), children: Vec::new() };
        std::mem::swap(&mut tree, carry_forward_ledger);
        let ghost before = tree;
        let next = post_transaction(tree, &txs[i]);
        proof {
            trees = trees.push(next);
            assert forall|j: int| 0 <= j < i + 1 implies #[trigger] transaction_posted(
                trees[j],
                trees[j + 1],
                txs@.take(i + 1)[j],
            ) by {
                if j < i {
                    assert(txs@.take(i as int)[j] == txs@.take(i + 1)[j]);
                    assert(transaction_posted(trees[j], trees[j + 1], txs@.take(i as int)[j]));
                }
            }
        }
        *carry_forward_ledger = next;
        i = i + 1;
    }
    proof {
        assert(txs@.take(txs.len() as int) =~= txs@);
        assert(trees[txs@.len() as int] == *carry_forward_ledger);
    }
}

/// Both totals of `l` lie within `m` of zero.
pub open spec fn bounded(l: AccountLedger, m: int) -> bool {
    &&& -m <= l.debit_total() <= m
    &&& -m <= l.credit_total() <= m
}

/// Revenue and expense categories are closed at the end of each period.
pub open spec fn is_temporary(a: Account) -> bool {
    is_desc(a, Account::Expense) || is_desc(a, Account::Revenue)
}

/// Asset, liability and equity balances are carried into the next period.
pub open spec fn is_permanent(a: Account) -> bool {
    is_desc(a, Account::Asset) || is_desc(a, Account::Liability) || is_desc(a, Account::Equity)
}

/// One ledger closed into the income summary: an expense ledger is
/// credited with its debit total, a revenue ledger debited with its credit
/// total, any other ledger is left as it is.
pub open spec fn temp_closed_ledger(
    old: AccountLedger,
    new: AccountLedger,
    date: chrono::NaiveDate,
) -> bool {
    if is_desc(old.account, Account::Expense) {
        old.credited(
            new,
            AccountEntry {
                offset_account: Account::IncomeSummary,
                amount: old.debit_total() as i64,
                date,
            },
        )
    } else if is_desc(old.account, Account::Revenue) {
        old.debited(
            new,
            AccountEntry {
                offset_account: Account::IncomeSummary,
                amount: old.credit_total() as i64,
                date,
            },
        )
    } else {
        new == old
    }
}

/// `x` is the debit total of a ledger of `a` in `t`, or zero when `t`
/// holds no ledger of `a`.
pub open spec fn category_debit(t: LedgerTree, a: Account, x: int) -> bool {
    ||| exists|p: Seq<int>|
        #[trigger] node_at(t, p) is Some && node_at(t, p)->0.account == a && x == node_at(
            t,
            p,
        )->0.debit_total()
    ||| x == 0 && forall|p: Seq<int>| #[trigger] node_at(t, p) is Some ==> node_at(t, p)->0.account != a
}

/// `x` is the credit total of a ledger of `a` in `t`, or zero when `t`
/// holds no ledger of `a`.
pub open spec fn category_credit(t: LedgerTree, a: Account, x: int) -> bool {
    ||| exists|p: Seq<int>|
        #[trigger] node_at(t, p) is Some && node_at(t, p)->0.account == a && x == node_at(
            t,
            p,
        )->0.credit_total()
    ||| x == 0 && forall|p: Seq<int>| #[trigger] node_at(t, p) is Some ==> node_at(t, p)->0.account != a
}

/// The period's net result moved into retained earnings: a loss is
/// debited, an income credited, to `RetainedEarnings` and the ledgers above
/// it; nothing moves when the two are equal.
pub open spec fn net_result_posted(
    old: LedgerTree,
    new: LedgerTree,
    expense: int,
    revenue: int,
    date: chrono::NaiveDate,
) -> bool {
    if expense > revenue {
        debit_posted(
            old,
            new,
            Account::RetainedEarnings,
            AccountEntry {
                offset_account: Account::RetainedEarnings,
                amount: (expense - revenue) as i64,
                date,
            },
        )
    } else if revenue > expense {
        credit_posted(
            old,
            new,
            Account::RetainedEarnings,
            AccountEntry {
                offset_account: Account::RetainedEarnings,
                amount: (revenue - expense) as i64,
                date,
            },
        )
    } else {
        new == old
    }
}

/// Every ledger of `new` is its counterpart in `old` closed into the income
/// summary.
pub open spec fn temps_closed(old: LedgerTree, new: LedgerTree, date: chrono::NaiveDate) -> bool {
    &&& same_shape(old, new)
    &&& forall|p: Seq<int>|
        #![trigger node_at(old, p)]
        node_at(old, p) is Some ==> temp_closed_ledger(node_at(old, p)->0, node_at(new, p)->0, date)
}

/// `new` is `old` with its temporary accounts closed and the net result
/// moved into retained earnings, the result measured on the `Expense`
/// ledger's debits against the `Revenue` ledger's credits.
pub open spec fn temp_closed(old: LedgerTree, new: LedgerTree, date: chrono::NaiveDate) -> bool {
    exists|mid: LedgerTree, expense: int, revenue: int|
        #![trigger net_result_posted(mid, new, expense, revenue, date)]
        {
            &&& temps_closed(old, mid, date)
            &&& category_debit(old, Account::Expense, expense)
            &&& category_credit(old, Account::Revenue, revenue)
            &&& net_result_posted(mid, new, expense, revenue, date)
        }
}

/// One ledger closed at the period's end: a permanent account's larger side
/// is matched by an `EndingBalance` entry on the other side; other ledgers
/// are left as they are.
pub open spec fn permanent_closed_ledger(
    old: AccountLedger,
    new: AccountLedger,
    date: chrono::NaiveDate,
) -> bool {
    let d = old.debit_total();
    let c = old.credit_total();
    if is_permanent(old.account) && d > c {
        old.credited(
            new,
            AccountEntry { offset_account: Account::EndingBalance, amount: (d - c) as i64, date },
        )
    } else if is_permanent(old.account) && c > d {
        old.debited(
            new,
            AccountEntry { offset_account: Account::EndingBalance, amount: (c - d) as i64, date },
        )
    } else {
        new == old
    }
}

/// The next period's ledger for `old`: a permanent account opens with its
/// excess as a `BeginningBalance` entry on its larger side; any other
/// ledger opens empty.
pub open spec fn opening_ledger(old: AccountLedger, new: AccountLedger, date: chrono::NaiveDate) -> bool {
    let d = old.debit_total();
    let c = old.credit_total();
    &&& new.account == old.account
    &&& if is_permanent(old.account) && d > c {
        &&& new.debits@ == seq![
            AccountEntry { offset_account: Account::BeginningBalance, amount: (d - c) as i64, date },
        ]
        &&& new.credits@.len() == 0
    } else if is_permanent(old.account) && c > d {
        &&& new.credits@ == seq![
            AccountEntry { offset_account: Account::BeginningBalance, amount: (c - d) as i64, date },
        ]
        &&& new.debits@.len() == 0
    } else {
        new.debits@.len() == 0 && new.credits@.len() == 0
    }
}

pub open spec fn permanents_closed(old: LedgerTree, new: LedgerTree, date: chrono::NaiveDate) -> bool {
    &&& same_shape(old, new)
    &&& forall|p: Seq<int>|
        #![trigger node_at(old, p)]
        node_at(old, p) is Some ==> permanent_closed_ledger(
            node_at(old, p)->0,
            node_at(new, p)->0,
            date,
        )
}

pub open spec fn next_period_opened(old: LedgerTree, new: LedgerTree, date: chrono::NaiveDate) -> bool {
    &&& same_shape(old, new)
    &&& forall|p: Seq<int>|
        #![trigger node_at(old, p)]
        node_at(old, p) is Some ==> opening_ledger(node_at(old, p)->0, node_at(new, p)->0, date)
}

proof fn lemma_bounded_push(l: AccountLedger, n: AccountLedger, e: AccountEntry, m: int, k: int)
    requires
        bounded(l, m),
        -k <= e.amount <= k,
        l.debited(n, e) || l.credited(n, e),
    ensures
        bounded(n, m + k),
{
    lemma_total_push(l.debits@, e);
    lemma_total_push(l.credits@, e);
}

/// The adjustments made at the end of a period before closing; none are
/// made yet, and the ledger is passed on unchanged.
fn end_of_period_adjustment(posted_ledger: &mut LedgerTree, period_ending_date: chrono::NaiveDate)
    ensures
        *final(posted_ledger) == *old(posted_ledger),
{
}

/// Closes the revenue and expense ledgers into the income summary and moves
/// the period's net result into retained earnings.
pub fn close_temp_accounts(adjusted_ledger: &mut LedgerTree, period_ending_date: chrono::NaiveDate)
    requires
        all_nodes(*old(adjusted_ledger), |l: AccountLedger| bounded(l, TOTAL_LIMIT as int)),
    ensures
        temp_closed(*old(adjusted_ledger), *final(adjusted_ledger), period_ending_date),
        all_nodes(*final(adjusted_ledger), |l: AccountLedger| bounded(l, 4 * TOTAL_LIMIT)),
{
    let ghost start = *adjusted_ledger;
    let date = period_ending_date;
    let expense_amount: i64 = match adjusted_ledger.find_ledger(Account::Expense) {
        Some(l) => l.debit_amount(),
        None => 0,
    };
    let revenue_amount: i64 = match adjusted_ledger.find_ledger(Account::Revenue) {
        Some(l) => l.credit_amount(),
        None => 0,
    };
    let close_one = |l: AccountLedger| -> (out: AccountLedger)
        requires
            bounded(l, TOTAL_LIMIT as int),
        ensures
            temp_closed_ledger(l, out, date),
            bounded(out, 2 * TOTAL_LIMIT),
        {
            if is_desc_account(l.account, Account::Expense) {
                let d = l.debit_amount();
                let out = l.credit_added(Account::IncomeSummary, d, date);
                proof {
                    lemma_bounded_push(l, out, AccountEntry { offset_account: Account::IncomeSummary, amount: d, date }, TOTAL_LIMIT as int, TOTAL_LIMIT as int);
                }
                out
            } else if is_desc_account(l.account, Account::Revenue) {
                let c = l.credit_amount();
                let out = l.debit_added(Account::IncomeSummary, c, date);
                proof {
                    lemma_bounded_push(l, out, AccountEntry { offset_account: Account::IncomeSummary, amount: c, date }, TOTAL_LIMIT as int, TOTAL_LIMIT as int);
                }
                out
            } else {
                l
            }
        };
    let mut ledger = Tree { value: AccountLedger::new(Account::AccountBase), children: Vec::new() };
    std::mem::swap(&mut ledger, adjusted_ledger);
    let closed = ledger.fmap_ref(&close_one);
    let ghost mid = closed;
    proof {
        assert forall|p: Seq<int>| #[trigger] node_at(start, p) is Some implies temp_closed_ledger(
            node_at(start, p)->0,
            node_at(mid, p)->0,
            date,
        ) && bounded(node_at(mid, p)->0, 2 * TOTAL_LIMIT) by {
            assert(call_ensures(close_one, (node_at(start, p)->0,), node_at(mid, p)->0));
        }
        assert(temps_closed(start, mid, date));
    }
    let result = if expense_amount > revenue_amount {
        let loss = expense_amount - revenue_amount;
        let add = |l: AccountLedger| -> (out: AccountLedger)
            ensures
                l.debited(out, AccountEntry { offset_account: Account::RetainedEarnings, amount: loss, date }),
            { l.debit_added(Account::RetainedEarnings, loss, date) };
        let r = closed.map_ances_ledgers(Account::RetainedEarnings, add);
        proof {
            assert forall|p: Seq<int>| #[trigger] node_at(mid, p) is Some implies (if is_desc(
                Account::RetainedEarnings,
                node_at(mid, p)->0.account,
            ) {
                node_at(mid, p)->0.debited(node_at(r, p)->0, AccountEntry { offset_account: Account::RetainedEarnings, amount: loss, date })
            } else {
                node_at(r, p) == node_at(mid, p)
            }) && bounded(node_at(r, p)->0, 4 * TOTAL_LIMIT) by {
                assert(node_at(mid, p) is Some);
                if is_desc(Account::RetainedEarnings, node_at(mid, p)->0.account) {
                    assert(call_ensures(add, (node_at(mid, p)->0,), node_at(r, p)->0));
                    lemma_bounded_push(node_at(mid, p)->0, node_at(r, p)->0, AccountEntry { offset_account: Account::RetainedEarnings, amount: loss, date }, 2 * TOTAL_LIMIT, 2 * TOTAL_LIMIT);
                }
            }
        }
        r
    } else if revenue_amount > expense_amount {
        let income = revenue_amount - expense_amount;
        let add = |l: AccountLedger| -> (out: AccountLedger)
            ensures
                l.credited(out, AccountEntry { offset_account: Account::RetainedEarnings, amount: income, date }),
            { l.credit_added(Account::RetainedEarnings, income, date) };
        let r = closed.map_ances_ledgers(Account::RetainedEarnings, add);
        proof {
            assert forall|p: Seq<int>| #[trigger] node_at(mid, p) is Some implies (if is_desc(
                Account::RetainedEarnings,
                node_at(mid, p)->0.account,
            ) {
                node_at(mid, p)->0.credited(node_at(r, p)->0, AccountEntry { offset_account: Account::RetainedEarnings, amount: income, date })
            } else {
                node_at(r, p) == node_at(mid, p)
            }) && bounded(node_at(r, p)->0, 4 * TOTAL_LIMIT) by {
                assert(node_at(mid, p) is Some);
                if is_desc(Account::RetainedEarnings, node_at(mid, p)->0.account) {
                    assert(call_ensures(add, (node_at(mid, p)->0,), node_at(r, p)->0));
                    lemma_bounded_push(node_at(mid, p)->0, node_at(r, p)->0, AccountEntry { offset_account: Account::RetainedEarnings, amount: income, date }, 2 * TOTAL_LIMIT, 2 * TOTAL_LIMIT);
                }
            }
        }
        r
    } else {
        closed
    };
    proof {
        assert(net_result_posted(mid, result, expense_amount as int, revenue_amount as int, date));
        assert(category_debit(start, Account::Expense, expense_amount as int));
        assert(category_credit(start, Account::Revenue, revenue_amount as int));
    }
    *adjusted_ledger = result;
}

/// Returns whether `account` is an asset, liability or equity category.
fn is_permanent_account(account: Account) -> (r: bool)
    ensures
        r == is_permanent(account),
{
    is_desc_account(account, Account::Asset) || is_desc_account(account, Account::Liability)
        || is_desc_account(account, Account::Equity)
}

/// Brings every asset, liability and equity ledger to a zero balance with
/// an `EndingBalance` entry dated at the period's end.
pub fn close_permanent_accounts(temp_closed_general_ledger: LedgerTree, period_ending_date: chrono::NaiveDate) -> (r:
    LedgerTree)
    requires
        all_nodes(temp_closed_general_ledger, |l: AccountLedger| bounded(l, 4 * TOTAL_LIMIT)),
    ensures
        permanents_closed(temp_closed_general_ledger, r, period_ending_date),
{
    let date = period_ending_date;
    let close_one = |l: AccountLedger| -> (out: AccountLedger)
        requires
            bounded(l, 4 * TOTAL_LIMIT),
        ensures
            permanent_closed_ledger(l, out, date),
        {
            if is_permanent_account(l.account) {
                let debit_amount = l.debit_amount();
                let credit_amount = l.credit_amount();
                if debit_amount > credit_amount {
                    l.credit_added(Account::EndingBalance, debit_amount - credit_amount, date)
                } else if credit_amount > debit_amount {
                    l.debit_added(Account::EndingBalance, credit_amount - debit_amount, date)
                } else {
                    l
                }
            } else {
                l
            }
        };
    let ghost start = temp_closed_general_ledger;
    let r = temp_closed_general_ledger.fmap_ref(&close_one);
    proof {
        assert forall|p: Seq<int>| #[trigger] node_at(start, p) is Some implies permanent_closed_ledger(
            node_at(start, p)->0,
            node_at(r, p)->0,
            date,
        ) by {
            assert(call_ensures(close_one, (node_at(start, p)->0,), node_at(r, p)->0));
        }
    }
    r
}

/// Returns the next period's tree: each asset, liability and equity ledger
/// opens with its excess as a `BeginningBalance` entry dated at the next
/// period's start; every other ledger opens empty.
pub fn open_next_period(temp_closed_general_ledger: &LedgerTree, next_period_beginning_date: chrono::NaiveDate) -> (r:
    LedgerTree)
    requires
        all_nodes(*temp_closed_general_ledger, |l: AccountLedger| bounded(l, 4 * TOTAL_LIMIT)),
    ensures
        next_period_opened(*temp_closed_general_ledger, r, next_period_beginning_date),
{
    let date = next_period_beginning_date;
    let open_one = |l: &AccountLedger| -> (out: AccountLedger)
        requires
            bounded(*l, 4 * TOTAL_LIMIT),
        ensures
            opening_ledger(*l, out, date),
        {
            let ledger = AccountLedger::new(l.account);
            proof {
                assert(ledger.debits@ =~= Seq::<AccountEntry>::empty());
                assert(ledger.credits@ =~= Seq::<AccountEntry>::empty());
            }
            if is_permanent_account(l.account) {
                let debit_amount = l.debit_amount();
                let credit_amount = l.credit_amount();
                if debit_amount > credit_amount {
                    let excess = debit_amount - credit_amount;
                    let out = ledger.debit_added(Account::BeginningBalance, excess, date);
                    assert(out.debits@ =~= seq![AccountEntry { offset_account: Account::BeginningBalance, amount: excess, date }]);
                    out
                } else if credit_amount > debit_amount {
                    let excess = credit_amount - debit_amount;
                    let out = ledger.credit_added(Account::BeginningBalance, excess, date);
                    assert(out.credits@ =~= seq![AccountEntry { offset_account: Account::BeginningBalance, amount: excess, date }]);
                    out
                } else {
                    ledger
                }
            } else {
                ledger
            }
        };
    let r = temp_closed_general_ledger.fmap(&open_one);
    proof {
        let start = *temp_closed_general_ledger;
        assert forall|p: Seq<int>| #[trigger] node_at(start, p) is Some implies opening_ledger(
            node_at(start, p)->0,
            node_at(r, p)->0,
            date,
        ) by {
            assert(call_ensures(open_one, (&node_at(start, p)->0,), node_at(r, p)->0));
        }
    }
    r
}

/// Closes a period: the (so far empty) end-of-period adjustment, then the
/// temporary accounts, then the permanent ones. Returns the closed tree,
/// kept as the period's record, and the next period's opening tree.
pub fn close_ledger(
    posted_ledger: LedgerTree,
    period_ending_date: chrono::NaiveDate,
    next_period_beginning_date: chrono::NaiveDate,
) -> (r: (LedgerTree, LedgerTree))
    requires
        all_nodes(posted_ledger, |l: AccountLedger| bounded(l, TOTAL_LIMIT as int)),
    ensures
        exists|temp: LedgerTree|
            #![trigger temp_closed(posted_ledger, temp, period_ending_date)]
            {
                &&& temp_closed(posted_ledger, temp, period_ending_date)
                &&& permanents_closed(temp, r.0, period_ending_date)
                &&& next_period_opened(temp, r.1, next_period_beginning_date)
            },
{
    let mut ledger = posted_ledger;
    end_of_period_adjustment(&mut ledger, period_ending_date);
    close_temp_accounts(&mut ledger, period_ending_date);
    let next = open_next_period(&ledger, next_period_beginning_date);
    let ghost temp = ledger;
    let closed = close_permanent_accounts(ledger, period_ending_date);
    proof {
        assert(temp_closed(posted_ledger, temp, period_ending_date));
    }
    (closed, next)
}

/// Neither revenue nor expense categories lie above `RetainedEarnings`,
/// and no category is both a revenue and an expense.
proof fn lemma_temporary_apart(a: Account)
    ensures
        is_desc(Account::RetainedEarnings, a) ==> !is_temporary(a),
        is_desc(a, Account::Revenue) ==> !debit_normal(a),
{
    reveal_with_fuel(is_desc, 5);
    lemma_parent_of(Account::Revenue);
    lemma_parent_of(Account::Expense);
    lemma_parent_of(Account::Asset);
    lemma_parent_of(Account::Account);
    if is_desc(Account::RetainedEarnings, a) && is_desc(a, Account::Expense) {
        lemma_desc_trans(Account::RetainedEarnings, a, Account::Expense);
    }
    if is_desc(Account::RetainedEarnings, a) && is_desc(a, Account::Revenue) {
        lemma_desc_trans(Account::RetainedEarnings, a, Account::Revenue);
    }
    if is_desc(a, Account::Revenue) && is_desc(a, Account::Expense) {
        lemma_desc_unique(a, Account::Revenue, Account::Expense);
    }
    if is_desc(a, Account::Revenue) && is_desc(a, Account::Asset) {
        lemma_desc_unique(a, Account::Revenue, Account::Asset);
    }
}

/// Closing the temporary accounts leaves every revenue and expense ledger
/// balanced, provided that before the close no expense ledger held credits
/// and no revenue ledger held debits.
pub proof fn lemma_close_temp_balances(old: LedgerTree, new: LedgerTree, date: chrono::NaiveDate)
    requires
        temp_closed(old, new, date),
        all_nodes(old, |l: AccountLedger| bounded(l, TOTAL_LIMIT as int)),
        forall|p: Seq<int>|
            #[trigger] node_at(old, p) is Some ==> {
                &&& is_desc(node_at(old, p)->0.account, Account::Expense) ==> node_at(
                    old,
                    p,
                )->0.credit_total() == 0
                &&& is_desc(node_at(old, p)->0.account, Account::Revenue) ==> node_at(
                    old,
                    p,
                )->0.debit_total() == 0
            },
    ensures
        forall|p: Seq<int>|
            #[trigger] node_at(new, p) is Some && is_temporary(node_at(new, p)->0.account)
                ==> node_at(new, p)->0.balance_of() == 0,
{
    let (mid, expense, revenue) = choose|mid: LedgerTree, expense: int, revenue: int|
        {
            &&& temps_closed(old, mid, date)
            &&& category_debit(old, Account::Expense, expense)
            &&& category_credit(old, Account::Revenue, revenue)
            &&& #[trigger] net_result_posted(mid, new, expense, revenue, date)
        };
    assert forall|p: Seq<int>|
        #[trigger] node_at(new, p) is Some && is_temporary(node_at(new, p)->0.account)
            implies node_at(new, p)->0.balance_of() == 0 by {
        assert(node_at(mid, p) is Some);
        assert(node_at(old, p) is Some);
        let o = node_at(old, p)->0;
        let m = node_at(mid, p)->0;
        assert(temp_closed_ledger(o, m, date));
        lemma_temporary_apart(o.account);
        assert(node_at(new, p) == node_at(mid, p));
        if is_desc(o.account, Account::Expense) {
            lemma_total_push(o.credits@, AccountEntry { offset_account: Account::IncomeSummary, amount: o.debit_total() as i64, date });
        } else {
            lemma_total_push(o.debits@, AccountEntry { offset_account: Account::IncomeSummary, amount: o.credit_total() as i64, date });
        }
    }
}

/// The debit totals of the leaf categories' ledgers, summed.
pub open spec fn leaf_debits(t: LedgerTree) -> int {
    tree_sum(
        t,
        |l: AccountLedger|
            if is_leaf(l.account) {
                l.debit_total()
            } else {
                0
            },
    )
}

/// The credit totals of the leaf categories' ledgers, summed.
pub open spec fn leaf_credits(t: LedgerTree) -> int {
    tree_sum(
        t,
        |l: AccountLedger|
            if is_leaf(l.account) {
                l.credit_total()
            } else {
                0
            },
    )
}

/// Posting `e` up the chain of the leaf `x` adds `e.amount` on the posted
/// side at the ledger of `x` alone, among the leaves.
proof fn lemma_chain_posting_sums(
    old: LedgerTree,
    new: LedgerTree,
    x: Account,
    e: AccountEntry,
    root: Account,
    debit: bool,
)
    requires
        mirrors(old, root),
        is_leaf(x),
        is_desc(x, root),
        debit ==> debit_posted(old, new, x, e),
        !debit ==> credit_posted(old, new, x, e),
    ensures
        mirrors(new, root),
        leaf_debits(new) == leaf_debits(old) + if debit {
            e.amount as int
        } else {
            0
        },
        leaf_credits(new) == leaf_credits(old) + if debit {
            0
        } else {
            e.amount as int
        },
{
    let gd = |l: AccountLedger|
        if is_leaf(l.account) {
            l.debit_total()
        } else {
            0
        };
    let gc = |l: AccountLedger|
        if is_leaf(l.account) {
            l.credit_total()
        } else {
            0
        };
    let kd: int = if debit {
        e.amount as int
    } else {
        0
    };
    let kc: int = if debit {
        0
    } else {
        e.amount as int
    };
    assert forall|p: Seq<int>| #[trigger] node_at(old, p) is Some implies {
        &&& node_at(new, p)->0.account == node_at(old, p)->0.account
        &&& gd(node_at(new, p)->0) == gd(node_at(old, p)->0) + hits(x, kd)(node_at(old, p)->0)
        &&& gc(node_at(new, p)->0) == gc(node_at(old, p)->0) + hits(x, kc)(node_at(old, p)->0)
    } by {
        let o = node_at(old, p)->0;
        let n = node_at(new, p)->0;
        lemma_total_push(o.debits@, e);
        lemma_total_push(o.credits@, e);
        if is_desc(x, o.account) && is_leaf(o.account) {
            lemma_desc_leaf(x, o.account);
        }
    }
    lemma_mirror_kept(old, new, root);
    lemma_tree_sum_shift(old, new, gd, hits(x, kd));
    lemma_tree_sum_shift(old, new, gc, hits(x, kc));
    lemma_mirror_count(old, root, x, kd);
    lemma_mirror_count(old, root, x, kc);
}

/// Double entry is conserved: posting transactions between leaf categories
/// of the tree's taxonomy raises the leaves' debits and their credits alike,
/// so a tree whose leaf debits equalled its leaf credits still has them
/// equal after posting.
pub proof fn lemma_posting_conserves(
    old: LedgerTree,
    new: LedgerTree,
    txs: Seq<Transaction>,
    root: Account,
)
    requires
        mirrors(old, root),
        posted(old, new, txs),
        forall|i: int|
            0 <= i < txs.len() ==> {
                &&& is_leaf(#[trigger] txs[i].debit_account)
                &&& is_leaf(txs[i].credit_account)
                &&& is_desc(txs[i].debit_account, root)
                &&& is_desc(txs[i].credit_account, root)
            },
    ensures
        mirrors(new, root),
        leaf_debits(new) - leaf_credits(new) == leaf_debits(old) - leaf_credits(old),
        leaf_debits(old) == leaf_credits(old) ==> leaf_debits(new) == leaf_credits(new),
{
    let trees = choose|trees: Seq<LedgerTree>|
        posting_steps(trees, txs) && trees[0] == old && #[trigger] trees[txs.len() as int] == new;
    lemma_steps_conserve(trees, txs, root, txs.len());
}

proof fn lemma_steps_conserve(trees: Seq<LedgerTree>, txs: Seq<Transaction>, root: Account, k: nat)
    requires
        mirrors(trees[0], root),
        posting_steps(trees, txs),
        k <= txs.len(),
        forall|i: int|
            0 <= i < txs.len() ==> {
                &&& is_leaf(#[trigger] txs[i].debit_account)
                &&& is_leaf(txs[i].credit_account)
                &&& is_desc(txs[i].debit_account, root)
                &&& is_desc(txs[i].credit_account, root)
            },
    ensures
        mirrors(trees[k as int], root),
        leaf_debits(trees[k as int]) - leaf_credits(trees[k as int]) == leaf_debits(trees[0])
            - leaf_credits(trees[0]),
    decreases k,
{
    if k > 0 {
        let i = k - 1;
        lemma_steps_conserve(trees, txs, root, i as nat);
        let t = txs[i];
        assert(transaction_posted(trees[i], trees[i + 1], t));
        let mid = choose|mid: LedgerTree|
            debit_posted(trees[i], mid, t.debit_account, debit_entry(t)) && #[trigger] credit_posted(
                mid,
                trees[i + 1],
                t.credit_account,
                credit_entry(t),
            );
        lemma_chain_posting_sums(trees[i], mid, t.debit_account, debit_entry(t), root, true);
        lemma_chain_posting_sums(mid, trees[i + 1], t.credit_account, credit_entry(t), root, false);
    }
}

/// A sum over the nodes of a function that is zero on every node is zero.
proof fn lemma_tree_sum_zero(t: LedgerTree, g: spec_fn(AccountLedger) -> int)
    requires
        forall|p: Seq<int>| #[trigger] node_at(t, p) is Some ==> g(node_at(t, p)->0) == 0,
    ensures
        tree_sum(t, g) == 0,
{
    lemma_tree_sum_shift(t, t, g, g);
}

/// The leaves of a freshly built tree hold no debits and no credits.
pub proof fn lemma_fresh_balanced(t: LedgerTree, root: Account)
    requires
        is_fresh(t, root),
    ensures
        leaf_debits(t) == 0,
        leaf_credits(t) == 0,
{
    let gd = |l: AccountLedger|
        if is_leaf(l.account) {
            l.debit_total()
        } else {
            0
        };
    let gc = |l: AccountLedger|
        if is_leaf(l.account) {
            l.credit_total()
        } else {
            0
        };
    assert forall|p: Seq<int>| #[trigger] node_at(t, p) is Some implies gd(node_at(t, p)->0) == 0
        && gc(node_at(t, p)->0) == 0 by {
        assert(node_at(t, p)->0.debits@ =~= Seq::<AccountEntry>::empty());
        assert(node_at(t, p)->0.credits@ =~= Seq::<AccountEntry>::empty());
    }
    lemma_tree_sum_zero(t, gd);
    lemma_tree_sum_zero(t, gc);
}

/// Posting transactions between leaf categories onto a freshly built tree
/// leaves the leaves' debits equal to their credits.
pub proof fn lemma_fresh_posting_balanced(
    old: LedgerTree,
    new: LedgerTree,
    txs: Seq<Transaction>,
    root: Account,
)
    requires
        is_fresh(old, root),
        posted(old, new, txs),
        forall|i: int|
            0 <= i < txs.len() ==> {
                &&& is_leaf(#[trigger] txs[i].debit_account)
                &&& is_leaf(txs[i].credit_account)
                &&& is_desc(txs[i].debit_account, root)
                &&& is_desc(txs[i].credit_account, root)
            },
    ensures
        leaf_debits(new) == leaf_credits(new),
{
    lemma_fresh_balanced(old, root);
    lemma_posting_conserves(old, new, txs, root);
}

} // verus!
