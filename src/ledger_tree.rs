use vstd::prelude::*;

use crate::account::{
    child_blocks, children_of, descendants, height, is_desc, is_desc_account, lemma_children_deeper,
    lemma_desc_child_witness, lemma_desc_level, lemma_desc_one_child, lemma_desc_via_child,
    sub_accounts, Account,
};
use crate::ledger::AccountLedger;
use crate::tree::{
    lemma_node_at_child, lemma_node_at_step, lemma_preorder_first_prefix, lemma_preorder_first_step,
    node_at, node_count, preorder, preorder_first, same_shape,
    same_values, sum_first, tree_sum, Tree,
};

verus! {

/// The chart of accounts as a tree of ledgers, one node per category.
pub type LedgerTree = Tree<AccountLedger>;

/// The category at path `p` below `a` in the taxonomy, if there is one.
pub open spec fn account_at(a: Account, p: Seq<int>) -> Option<Account>
    decreases p.len(),
{
    if p.len() == 0 {
        Some(a)
    } else if 0 <= p[0] < children_of(a).len() {
        account_at(children_of(a)[p[0]], p.drop_first())
    } else {
        None
    }
}

/// `t` has a node exactly where the taxonomy below `a` has a category,
/// and each node's ledger belongs to that category.
pub open spec fn mirrors(t: LedgerTree, a: Account) -> bool {
    forall|p: Seq<int>|
        #![trigger node_at(t, p)]
        #![trigger account_at(a, p)]
        {
            &&& (node_at(t, p) is Some) == (account_at(a, p) is Some)
            &&& node_at(t, p) is Some ==> node_at(t, p)->0.account == account_at(a, p)->0
        }
}

/// `t` mirrors the taxonomy below `a` and holds no entries.
pub open spec fn is_fresh(t: LedgerTree, a: Account) -> bool {
    &&& mirrors(t, a)
    &&& forall|p: Seq<int>|
        #[trigger] node_at(t, p) is Some ==> node_at(t, p)->0.debits@.len() == 0
            && node_at(t, p)->0.credits@.len() == 0
}

/// `new` has the shape of `old`; the ledgers whose accounts satisfy `sel`
/// are what `f` may give for them, the others are unchanged.
pub open spec fn updated_where<F: Fn(AccountLedger) -> AccountLedger>(
    old: LedgerTree,
    new: LedgerTree,
    sel: spec_fn(Account) -> bool,
    f: F,
) -> bool {
    &&& crate::tree::same_shape(old, new)
    &&& forall|p: Seq<int>|
        #![trigger node_at(old, p)]
        node_at(old, p) is Some ==> if sel(node_at(old, p)->0.account) {
            call_ensures(f, (node_at(old, p)->0,), node_at(new, p)->0)
        } else {
            node_at(new, p) == node_at(old, p)
        }
}

/// Picks the ledgers of `account`.
pub open spec fn is_account(account: Account) -> spec_fn(Account) -> bool {
    |a: Account| a == account
}

/// Picks the ledgers of `account` and of the categories below it.
pub open spec fn under(account: Account) -> spec_fn(Account) -> bool {
    |a: Account| is_desc(a, account)
}

/// Picks the ledgers of `account` and of the categories above it.
pub open spec fn over(account: Account) -> spec_fn(Account) -> bool {
    |a: Account| is_desc(account, a)
}

/// `f` may be called on every ledger of `t` whose account satisfies `sel`.
pub open spec fn callable_where<F: Fn(AccountLedger) -> AccountLedger>(
    t: LedgerTree,
    sel: spec_fn(Account) -> bool,
    f: F,
) -> bool {
    forall|p: Seq<int>|
        #[trigger] node_at(t, p) is Some && sel(node_at(t, p)->0.account) ==> f.requires(
            (node_at(t, p)->0,),
        )
}

proof fn lemma_fresh_from_parts(t: LedgerTree, a: Account)
    requires
        t.value.account == a,
        t.value.debits@.len() == 0,
        t.value.credits@.len() == 0,
        t.children.len() == children_of(a).len(),
        forall|j: int|
            0 <= j < t.children.len() ==> #[trigger] is_fresh(t.children[j], children_of(a)[j]),
    ensures
        is_fresh(t, a),
{
    assert forall|p: Seq<int>|
        #![trigger node_at(t, p)]
        #![trigger account_at(a, p)]
        {
            &&& (node_at(t, p) is Some) == (account_at(a, p) is Some)
            &&& node_at(t, p) is Some ==> node_at(t, p)->0.account == account_at(a, p)->0
            &&& node_at(t, p) is Some ==> node_at(t, p)->0.debits@.len() == 0
                && node_at(t, p)->0.credits@.len() == 0
        } by {
        if p.len() > 0 {
            lemma_node_at_step(t, p);
            if 0 <= p[0] < t.children.len() {
                let q = p.drop_first();
                assert(is_fresh(t.children[p[0]], children_of(a)[p[0]]));
                assert(account_at(a, p) == account_at(children_of(a)[p[0]], q));
                assert((node_at(t.children[p[0]], q) is Some) == (account_at(
                    children_of(a)[p[0]],
                    q,
                ) is Some));
            }
        }
    }
}

/// A subtree of a fresh tree is fresh for the corresponding child.
proof fn lemma_fresh_child(t: LedgerTree, a: Account, j: int)
    requires
        is_fresh(t, a),
        0 <= j < t.children.len(),
    ensures
        j < children_of(a).len(),
        is_fresh(t.children[j], children_of(a)[j]),
{
    let c = children_of(a);
    assert(node_at(t, seq![j]) is Some) by {
        lemma_node_at_step(t, seq![j]);
        assert(seq![j].drop_first() =~= Seq::<int>::empty());
        assert(node_at(t.children[j], Seq::<int>::empty()) is Some);
    }
    assert(account_at(a, seq![j]) is Some);
    assert forall|q: Seq<int>|
        #![trigger node_at(t.children[j], q)]
        #![trigger account_at(c[j], q)]
        {
            &&& (node_at(t.children[j], q) is Some) == (account_at(c[j], q) is Some)
            &&& node_at(t.children[j], q) is Some ==> node_at(t.children[j], q)->0.account
                == account_at(c[j], q)->0
            &&& node_at(t.children[j], q) is Some ==> node_at(t.children[j], q)->0.debits@.len()
                == 0 && node_at(t.children[j], q)->0.credits@.len() == 0
        } by {
        let p = seq![j] + q;
        assert(p.drop_first() =~= q);
        lemma_node_at_step(t, p);
        assert(account_at(a, p) == account_at(c[j], q));
        assert(node_at(t, p) == node_at(t.children[j], q));
    }
}

/// A fresh tree has as many nodes as the walk below its root visits.
proof fn lemma_fresh_count(t: LedgerTree, a: Account)
    requires
        is_fresh(t, a),
    ensures
        node_count(t) == descendants(a).len(),
    decreases height(a), 1nat, 0nat,
{
    assert(node_at(t, Seq::empty()) is Some);
    assert(account_at(a, Seq::empty()) is Some);
    let n = t.children.len();
    if n != children_of(a).len() {
        if n < children_of(a).len() {
            let p = seq![n as int];
            assert(p.drop_first() =~= Seq::<int>::empty());
            lemma_node_at_step(t, p);
            assert(account_at(a, p) == account_at(children_of(a)[n as int], Seq::<int>::empty()));
            assert(account_at(a, p) is Some);
        } else {
            lemma_fresh_child(t, a, children_of(a).len() as int);
        }
    }
    lemma_fresh_count_first(t, a, n as nat);
}

proof fn lemma_fresh_count_first(t: LedgerTree, a: Account, k: nat)
    requires
        is_fresh(t, a),
        t.children.len() == children_of(a).len(),
        k <= t.children.len(),
    ensures
        preorder_first(t, k).len() == child_blocks(a, k).len(),
    decreases height(a), 0nat, k,
{
    if k > 0 {
        lemma_children_deeper(a);
        lemma_fresh_child(t, a, k - 1);
        lemma_fresh_count(t.children[k - 1], children_of(a)[k - 1]);
        lemma_fresh_count_first(t, a, (k - 1) as nat);
    }
}

impl Tree<AccountLedger> {
    /// Returns the tree of empty ledgers for `account` and every category
    /// below it, shaped as the taxonomy.
    pub fn new(account: Account) -> (r: LedgerTree)
        ensures
            is_fresh(r, account),
            node_count(r) == descendants(account).len(),
        decreases height(account),
    {
        let value = AccountLedger::new(account);
        let subs = sub_accounts(account);
        proof {
            lemma_children_deeper(account);
        }
        let mut children: Vec<LedgerTree> = Vec::new();
        let mut i: usize = 0;
        while i < subs.len()
            invariant
                subs@ == children_of(account),
                forall|j: int| 0 <= j < subs@.len() ==> height(#[trigger] subs@[j]) < height(account),
                i <= subs.len(),
                children.len() == i,
                forall|j: int|
                    0 <= j < i ==> #[trigger] is_fresh(children[j], children_of(account)[j]),
            decreases subs.len() - i,
        {
            let c = Tree::new(subs[i]);
            children.push(c);
            i = i + 1;
        }
        let r = Tree { value, children };
        proof {
            lemma_fresh_from_parts(r, account);
            lemma_fresh_count(r, account);
        }
        r
    }
    /// Applies `f` to the ledgers whose accounts `choose` picks; every other
    /// ledger is left as it is. `choose` decides `sel`.
    fn map_where<F: Fn(AccountLedger) -> AccountLedger, C: Fn(Account) -> bool>(
        self,
        choose: C,
        sel: Ghost<spec_fn(Account) -> bool>,
        f: F,
    ) -> (r: LedgerTree)
        requires
            forall|a: Account| choose.requires((a,)),
            forall|a: Account, b: bool| choose.ensures((a,), b) ==> b == sel@(a),
            callable_where(self, sel@, f),
        ensures
            updated_where(self, r, sel@, f),
    {
        let fr = &f;
        let cr = &choose;
        let g = |l: AccountLedger| -> (out: AccountLedger)
            requires
                sel@(l.account) ==> fr.requires((l,)),
            ensures
                sel@(l.account) ==> fr.ensures((l,), out),
                !sel@(l.account) ==> out == l,
            {
                if cr(l.account) {
                    fr(l)
                } else {
                    l
                }
            };
        proof {
            assert forall|p: Seq<int>| #[trigger] node_at(self, p) is Some implies g.requires(
                (node_at(self, p)->0,),
            ) by {}
        }
        let r = self.fmap_ref(&g);
        proof {
            assert forall|p: Seq<int>| #[trigger] node_at(self, p) is Some implies (if sel@(
                node_at(self, p)->0.account,
            ) {
                call_ensures(f, (node_at(self, p)->0,), node_at(r, p)->0)
            } else {
                node_at(r, p) == node_at(self, p)
            }) by {
                assert(call_ensures(g, (node_at(self, p)->0,), node_at(r, p)->0));
            }
        }
        r
    }

    /// Applies `f` to the ledger of `account`; every other ledger is left
    /// as it is.
    pub fn map_ledger<F: Fn(AccountLedger) -> AccountLedger>(self, account: Account, f: F) -> (r:
        LedgerTree)
        requires
            callable_where(self, is_account(account), f),
        ensures
            updated_where(self, r, is_account(account), f),
    {
        let choose = |a: Account| -> (b: bool)
            ensures
                b == is_account(account)(a),
            { a == account };
        self.map_where(choose, Ghost(is_account(account)), f)
    }

    /// Applies `f` to the ledger of `account` and of every category below
    /// it; every other ledger is left as it is.
    pub fn map_desc_ledgers<F: Fn(AccountLedger) -> AccountLedger>(self, account: Account, f: F) -> (r:
        LedgerTree)
        requires
            callable_where(self, under(account), f),
        ensures
            updated_where(self, r, under(account), f),
    {
        let choose = |a: Account| -> (b: bool)
            ensures
                b == under(account)(a),
            { is_desc_account(a, account) };
        self.map_where(choose, Ghost(under(account)), f)
    }

    /// Applies `f` to the ledger of `account` and of every category above
    /// it; every other ledger is left as it is. This is how a posting
    /// reaches the aggregate ledgers of the containing categories.
    pub fn map_ances_ledgers<F: Fn(AccountLedger) -> AccountLedger>(self, account: Account, f: F) -> (r:
        LedgerTree)
        requires
            callable_where(self, over(account), f),
        ensures
            updated_where(self, r, over(account), f),
    {
        let choose = |a: Account| -> (b: bool)
            ensures
                b == over(account)(a),
            { is_desc_account(account, a) };
        self.map_where(choose, Ghost(over(account)), f)
    }

    /// Returns the first ledger of `account` in pre-order, if any.
    pub fn find_ledger(&self, account: Account) -> (r: Option<&AccountLedger>)
        ensures
            r is None <==> forall|p: Seq<int>|
                #[trigger] node_at(*self, p) is Some ==> node_at(*self, p)->0.account != account,
            r is None ==> forall|i: int|
                0 <= i < preorder(*self).len() ==> #[trigger] preorder(*self)[i].account != account,
            r is Some ==> r->0.account == account && exists|p: Seq<int>|
                #[trigger] node_at(*self, p) == Some(*r->0),
            r is Some ==> exists|i: int|
                0 <= i < preorder(*self).len() && #[trigger] preorder(*self)[i] == *r->0 && forall|j: int|
                    0 <= j < i ==> preorder(*self)[j].account != account,
        decreases self,
    {
        assert(node_at(*self, Seq::empty()) == Some(self.value));
        let ghost n = self.children.len() as nat;
        let ghost whole = preorder(*self);
        assert(whole == seq![self.value] + preorder_first(*self, n));
        if self.value.account == account {
            assert(whole[0] == self.value);
            return Some(&self.value);
        }
        let mut i: usize = 0;
        proof {
            assert(preorder_first(*self, 0) =~= Seq::<AccountLedger>::empty());
        }
        while i < self.children.len()
            invariant
                i <= self.children.len(),
                n == self.children.len(),
                whole == seq![self.value] + preorder_first(*self, n),
                self.value.account != account,
                forall|j: int, q: Seq<int>|
                    0 <= j < i && #[trigger] node_at(self.children[j], q) is Some ==> node_at(
                        self.children[j],
                        q,
                    )->0.account != account,
                forall|j: int|
                    0 <= j < preorder_first(*self, i as nat).len() ==> #[trigger] preorder_first(
                        *self,
                        i as nat,
                    )[j].account != account,
            decreases self.children.len() - i,
        {
            proof {
                lemma_preorder_first_step(*self, (i + 1) as nat);
                lemma_preorder_first_prefix(*self, (i + 1) as nat, n);
            }
            match self.children[i].find_ledger(account) {
                Some(l) => {
                    proof {
                        let q = choose|q: Seq<int>| #[trigger] node_at(self.children[i as int], q) == Some(*l);
                        let p = seq![i as int] + q;
                        assert(p.drop_first() =~= q);
                        lemma_node_at_step(*self, p);
                        assert(node_at(*self, p) == Some(*l));
                        let sub = preorder(self.children[i as int]);
                        let before = preorder_first(*self, i as nat);
                        let ic = choose|ic: int|
                            0 <= ic < sub.len() && #[trigger] sub[ic] == *l && forall|j: int|
                                0 <= j < ic ==> sub[j].account != account;
                        let at = 1 + before.len() + ic;
                        assert(preorder_first(*self, (i + 1) as nat)[before.len() + ic] == sub[ic]);
                        assert(whole[at] == *l);
                        assert forall|j: int| 0 <= j < at implies whole[j].account != account by {
                            if j > 0 {
                                let k = j - 1;
                                if k < before.len() {
                                    assert(preorder_first(*self, (i + 1) as nat)[k] == before[k]);
                                    assert(before[k].account != account);
                                } else {
                                    assert(preorder_first(*self, (i + 1) as nat)[k] == sub[k - before.len()]);
                                }
                            }
                        }
                        assert(0 <= at < whole.len() && whole[at] == *l);
                    }
                    return Some(l);
                },
                None => {},
            }
            proof {
                let sub = preorder(self.children[i as int]);
                let before = preorder_first(*self, i as nat);
                assert forall|j: int|
                    0 <= j < preorder_first(*self, (i + 1) as nat).len() implies #[trigger] preorder_first(
                    *self,
                    (i + 1) as nat,
                )[j].account != account by {
                    if j >= before.len() {
                        assert(preorder_first(*self, (i + 1) as nat)[j] == sub[j - before.len()]);
                    }
                }
            }
            i = i + 1;
        }
        proof {
            assert forall|p: Seq<int>| #[trigger] node_at(*self, p) is Some implies node_at(*self, p)->0.account != account by {
                if p.len() > 0 {
                    lemma_node_at_step(*self, p);
                    let q = p.drop_first();
                    assert(node_at(self.children[p[0]], q) is Some);
                }
            }
            assert forall|j: int| 0 <= j < whole.len() implies #[trigger] whole[j].account != account by {
                if j > 0 {
                    assert(whole[j] == preorder_first(*self, n)[j - 1]);
                }
            }
        }
        None
    }
}

/// Updating the ledger of an account that has no ledger in the tree leaves
/// the tree as it was.
pub proof fn lemma_map_ledger_absent<F: Fn(AccountLedger) -> AccountLedger>(
    old: LedgerTree,
    new: LedgerTree,
    account: Account,
    f: F,
)
    requires
        updated_where(old, new, is_account(account), f),
        forall|p: Seq<int>| #[trigger] node_at(old, p) is Some ==> node_at(old, p)->0.account != account,
    ensures
        same_values(old, new),
{
    assert forall|p: Seq<int>| #[trigger] node_at(old, p) == node_at(new, p) by {
        if node_at(old, p) is None {
            assert((node_at(old, p) is Some) == (node_at(new, p) is Some));
        }
    }
}

/// Updating the ledgers under an account none of whose categories has a
/// ledger in the tree leaves the tree as it was.
pub proof fn lemma_map_desc_ledgers_absent<F: Fn(AccountLedger) -> AccountLedger>(
    old: LedgerTree,
    new: LedgerTree,
    account: Account,
    f: F,
)
    requires
        updated_where(old, new, under(account), f),
        forall|p: Seq<int>| #[trigger] node_at(old, p) is Some ==> !is_desc(node_at(old, p)->0.account, account),
    ensures
        same_values(old, new),
{
    assert forall|p: Seq<int>| #[trigger] node_at(old, p) == node_at(new, p) by {
        if node_at(old, p) is None {
            assert((node_at(old, p) is Some) == (node_at(new, p) is Some));
        }
    }
}

/// `k` on the ledgers of `x`, zero on all others.
pub open spec fn hits(x: Account, k: int) -> spec_fn(AccountLedger) -> int {
    |l: AccountLedger|
        if l.account == x {
            k
        } else {
            0
        }
}

/// The root and subtrees of a tree that mirrors the taxonomy below `a`.
pub proof fn lemma_mirror_parts(t: LedgerTree, a: Account)
    requires
        mirrors(t, a),
    ensures
        t.value.account == a,
        t.children.len() == children_of(a).len(),
        forall|j: int| 0 <= j < t.children.len() ==> #[trigger] mirrors(t.children[j], children_of(a)[j]),
{
    let e = Seq::<int>::empty();
    assert(node_at(t, e) is Some);
    assert(account_at(a, e) is Some);
    let n = t.children.len();
    let m = children_of(a).len();
    if n != m {
        let j: int = if n < m { n as int } else { m as int };
        let p = seq![j];
        assert(p.drop_first() =~= e);
        lemma_node_at_step(t, p);
        if j < m {
            assert(account_at(a, p) == account_at(children_of(a)[j], e));
            assert(account_at(children_of(a)[j], e) is Some);
        } else {
            assert(account_at(a, p) is None);
            assert(node_at(t.children[j], e) is Some);
        }
        assert(node_at(t, p) is Some == account_at(a, p) is Some);
    }
    assert forall|j: int| 0 <= j < n implies #[trigger] mirrors(t.children[j], children_of(a)[j]) by {
        assert forall|q: Seq<int>|
            #![trigger node_at(t.children[j], q)]
            #![trigger account_at(children_of(a)[j], q)]
            {
                &&& (node_at(t.children[j], q) is Some) == (account_at(children_of(a)[j], q) is Some)
                &&& node_at(t.children[j], q) is Some ==> node_at(t.children[j], q)->0.account
                    == account_at(children_of(a)[j], q)->0
            } by {
            lemma_node_at_child(t, j, q);
            let p = seq![j] + q;
            assert(p.drop_first() =~= q);
            assert(account_at(a, p) == account_at(children_of(a)[j], q));
            assert(node_at(t, p) is Some == account_at(a, p) is Some);
        }
    }
}

/// A tree of the same shape whose ledgers keep their accounts still
/// mirrors the taxonomy.
pub proof fn lemma_mirror_kept(old: LedgerTree, new: LedgerTree, a: Account)
    requires
        mirrors(old, a),
        same_shape(old, new),
        forall|p: Seq<int>|
            #[trigger] node_at(old, p) is Some ==> node_at(new, p)->0.account == node_at(old, p)->0.account,
    ensures
        mirrors(new, a),
{
    assert forall|p: Seq<int>|
        #![trigger node_at(new, p)]
        #![trigger account_at(a, p)]
        {
            &&& (node_at(new, p) is Some) == (account_at(a, p) is Some)
            &&& node_at(new, p) is Some ==> node_at(new, p)->0.account == account_at(a, p)->0
        } by {
        assert((node_at(old, p) is Some) == (node_at(new, p) is Some));
        assert((node_at(old, p) is Some) == (account_at(a, p) is Some));
    }
}

/// A tree mirroring the taxonomy below `a` holds one ledger of `x` when `x`
/// lies under `a`, and none otherwise.
pub proof fn lemma_mirror_count(t: LedgerTree, a: Account, x: Account, k: int)
    requires
        mirrors(t, a),
    ensures
        tree_sum(t, hits(x, k)) == if is_desc(x, a) {
            k
        } else {
            0
        },
    decreases height(a), 1nat, 0nat,
{
    lemma_mirror_parts(t, a);
    let n = children_of(a).len();
    lemma_mirror_count_first(t, a, x, k, n);
    if x == a {
        if exists|j: int| 0 <= j < n && #[trigger] is_desc(x, children_of(a)[j]) {
            let j = choose|j: int| 0 <= j < n && #[trigger] is_desc(x, children_of(a)[j]);
            lemma_children_deeper(a);
            lemma_desc_level(x, children_of(a)[j]);
        }
    } else if is_desc(x, a) {
        let i = lemma_desc_child_witness(x, a);
        assert(is_desc(x, children_of(a)[i]));
    } else {
        if exists|j: int| 0 <= j < n && #[trigger] is_desc(x, children_of(a)[j]) {
            let j = choose|j: int| 0 <= j < n && #[trigger] is_desc(x, children_of(a)[j]);
            lemma_desc_via_child(x, a, j);
        }
    }
}

proof fn lemma_mirror_count_first(t: LedgerTree, a: Account, x: Account, k: int, m: nat)
    requires
        mirrors(t, a),
        t.children.len() == children_of(a).len(),
        m <= children_of(a).len(),
    ensures
        sum_first(t, hits(x, k), m) == if exists|j: int|
            0 <= j < m && #[trigger] is_desc(x, children_of(a)[j]) {
            k
        } else {
            0
        },
    decreases height(a), 0nat, m,
{
    lemma_children_deeper(a);
    lemma_mirror_parts(t, a);
    if m > 0 {
        let c = children_of(a)[m - 1];
        lemma_mirror_count(t.children[m - 1], c, x, k);
        lemma_mirror_count_first(t, a, x, k, (m - 1) as nat);
        if is_desc(x, c) {
            if exists|j: int| 0 <= j < m - 1 && #[trigger] is_desc(x, children_of(a)[j]) {
                let j = choose|j: int| 0 <= j < m - 1 && #[trigger] is_desc(x, children_of(a)[j]);
                lemma_desc_one_child(x, a, j, m - 1);
            }
            assert(is_desc(x, children_of(a)[m - 1]));
        } else {
            if exists|j: int| 0 <= j < m && #[trigger] is_desc(x, children_of(a)[j]) {
                let j = choose|j: int| 0 <= j < m && #[trigger] is_desc(x, children_of(a)[j]);
                assert(j != m - 1);
                assert(0 <= j < m - 1 && is_desc(x, children_of(a)[j]));
            }
        }
    }
}

} // verus!
