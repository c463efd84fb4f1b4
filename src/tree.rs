use vstd::prelude::*;

verus! {

/// A rose tree: a value and an ordered list of subtrees.
#[derive(Debug, PartialEq)]
pub struct Tree<T> {
    pub value: T,
    pub children: Vec<Tree<T>>,
}

/// The value at path `p` (child indices from the root), if there is a node
/// there.
pub open spec fn node_at<T>(t: Tree<T>, p: Seq<int>) -> Option<T>
    decreases p.len(),
{
    if p.len() == 0 {
        Some(t.value)
    } else if 0 <= p[0] < t.children.len() {
        node_at(t.children[p[0]], p.drop_first())
    } else {
        None
    }
}

/// The number of subtrees of the node at path `p` (zero where there is no
/// node).
pub open spec fn degree_at<T>(t: Tree<T>, p: Seq<int>) -> nat
    decreases p.len(),
{
    if p.len() == 0 {
        t.children.len() as nat
    } else if 0 <= p[0] < t.children.len() {
        degree_at(t.children[p[0]], p.drop_first())
    } else {
        0
    }
}

/// One step down a path.
pub proof fn lemma_node_at_step<T>(t: Tree<T>, p: Seq<int>)
    requires
        p.len() > 0,
    ensures
        0 <= p[0] < t.children.len() ==> node_at(t, p) == node_at(t.children[p[0]], p.drop_first()),
        0 <= p[0] < t.children.len() ==> degree_at(t, p) == degree_at(t.children[p[0]], p.drop_first()),
        !(0 <= p[0] < t.children.len()) ==> node_at(t, p) is None,
{
}

/// A measure on seeds that each expansion step of an unfold must lower.
pub trait Seed {
    spec fn rank(&self) -> nat;
}

impl Seed for u32 {
    open spec fn rank(&self) -> nat {
        *self as nat
    }
}

/// Each node of `t` holds a value that `f` may give for the seed
/// `seed_at` assigns to its path, together with the seeds of its subtrees.
pub open spec fn grown_from<T, B, F: Fn(&B) -> (T, Vec<B>)>(
    t: Tree<T>,
    f: F,
    seed_at: spec_fn(Seq<int>) -> B,
) -> bool {
    forall|p: Seq<int>|
        #[trigger] node_at(t, p) is Some ==> exists|cs: Vec<B>|
            {
                &&& #[trigger] call_ensures(f, (&seed_at(p),), (node_at(t, p)->0, cs))
                &&& cs.len() == degree_at(t, p)
                &&& forall|i: int| 0 <= i < cs.len() ==> cs@[i] == seed_at(p.push(i))
            }
}

/// `t` is what unfolding `b` by `f` may give: there is a seed for every
/// node, `b` at the root, from which `f` grows the node.
pub open spec fn unfolds<T, B, F: Fn(&B) -> (T, Vec<B>)>(t: Tree<T>, f: F, b: B) -> bool {
    exists|seed_at: spec_fn(Seq<int>) -> B|
        #[trigger] seed_at(Seq::empty()) == b && grown_from(t, f, seed_at)
}

/// The two trees have nodes at the same paths.
pub open spec fn same_shape<T, U>(a: Tree<T>, b: Tree<U>) -> bool {
    forall|p: Seq<int>|
        #![trigger node_at(a, p)]
        #![trigger node_at(b, p)]
        (node_at(a, p) is Some) == (node_at(b, p) is Some)
}

/// The two trees hold equal values at the same paths.
pub open spec fn same_values<T>(a: Tree<T>, b: Tree<T>) -> bool {
    forall|p: Seq<int>|
        #![trigger node_at(a, p)]
        #![trigger node_at(b, p)]
        node_at(a, p) == node_at(b, p)
}

/// `b` has the shape of `a`, and each of its values is what `f` may give for
/// a reference to the value at the same place in `a`.
pub open spec fn mapped_by<T, B, F: Fn(&T) -> B>(a: Tree<T>, b: Tree<B>, f: F) -> bool {
    &&& same_shape(a, b)
    &&& forall|p: Seq<int>|
        #![trigger node_at(a, p)]
        node_at(a, p) is Some ==> call_ensures(f, (&node_at(a, p)->0,), node_at(b, p)->0)
}

/// `b` has the shape of `a`, and each of its values is what `f` may give for
/// the value at the same place in `a`.
pub open spec fn moved_by<T, B, F: Fn(T) -> B>(a: Tree<T>, b: Tree<B>, f: F) -> bool {
    &&& same_shape(a, b)
    &&& forall|p: Seq<int>|
        #![trigger node_at(a, p)]
        node_at(a, p) is Some ==> call_ensures(f, (node_at(a, p)->0,), node_at(b, p)->0)
}

/// Every value of `t` satisfies `pred`.
pub open spec fn all_nodes<T>(t: Tree<T>, pred: spec_fn(T) -> bool) -> bool {
    forall|p: Seq<int>| #[trigger] node_at(t, p) is Some ==> pred(node_at(t, p)->0)
}

/// `z` pairs the values of `a` and `b` where both have a node.
pub open spec fn zipped<T, B>(a: Tree<T>, b: Tree<B>, z: Tree<(T, B)>) -> bool {
    forall|p: Seq<int>|
        #![trigger node_at(z, p)]
        #![trigger node_at(a, p)]
        #![trigger node_at(b, p)]
        {
            &&& (node_at(z, p) is Some) == (node_at(a, p) is Some && node_at(b, p) is Some)
            &&& node_at(z, p) is Some ==> node_at(z, p)->0 == (node_at(a, p)->0, node_at(b, p)->0)
        }
}

/// The values of `t` in pre-order: a node, then its subtrees left to right.
pub open spec fn preorder<T>(t: Tree<T>) -> Seq<T>
    decreases t, 1nat, 0nat,
{
    seq![t.value] + preorder_first(t, t.children.len() as nat)
}

/// The pre-orders of the first `k` subtrees of `t`, concatenated.
pub open spec fn preorder_first<T>(t: Tree<T>, k: nat) -> Seq<T>
    decreases t, 0nat, k,
{
    if k == 0 || k > t.children.len() {
        seq![]
    } else {
        preorder_first(t, (k - 1) as nat) + preorder(t.children[k - 1])
    }
}

/// The number of nodes of `t`.
pub open spec fn node_count<T>(t: Tree<T>) -> nat {
    preorder(t).len()
}

/// A tree whose root and subtrees stand in `mapped_by` relations stands in
/// one as a whole.
proof fn lemma_mapped_from_parts<T, B, F: Fn(&T) -> B>(a: Tree<T>, b: Tree<B>, f: F)
    requires
        call_ensures(f, (&a.value,), b.value),
        a.children.len() == b.children.len(),
        forall|j: int|
            0 <= j < a.children.len() ==> #[trigger] mapped_by(a.children[j], b.children[j], f),
    ensures
        mapped_by(a, b, f),
{
    assert forall|p: Seq<int>| #[trigger]
        node_at(a, p) is Some == (node_at(b, p) is Some) && (node_at(a, p) is Some ==> call_ensures(
            f,
            (&node_at(a, p)->0,),
            node_at(b, p)->0,
        )) by {
        if p.len() > 0 {
            lemma_node_at_step(a, p);
            lemma_node_at_step(b, p);
            if 0 <= p[0] < a.children.len() {
                assert(mapped_by(a.children[p[0]], b.children[p[0]], f));
                assert(node_at(a.children[p[0]], p.drop_first()) is Some == (node_at(
                    b.children[p[0]],
                    p.drop_first(),
                ) is Some));
            }
        }
    }
}

/// The same for `moved_by`.
proof fn lemma_moved_from_parts<T, B, F: Fn(T) -> B>(a: Tree<T>, b: Tree<B>, f: F)
    requires
        call_ensures(f, (a.value,), b.value),
        a.children.len() == b.children.len(),
        forall|j: int|
            0 <= j < a.children.len() ==> #[trigger] moved_by(a.children[j], b.children[j], f),
    ensures
        moved_by(a, b, f),
{
    assert forall|p: Seq<int>| #[trigger]
        node_at(a, p) is Some == (node_at(b, p) is Some) && (node_at(a, p) is Some ==> call_ensures(
            f,
            (node_at(a, p)->0,),
            node_at(b, p)->0,
        )) by {
        if p.len() > 0 {
            lemma_node_at_step(a, p);
            lemma_node_at_step(b, p);
            if 0 <= p[0] < a.children.len() {
                assert(moved_by(a.children[p[0]], b.children[p[0]], f));
                assert(node_at(a.children[p[0]], p.drop_first()) is Some == (node_at(
                    b.children[p[0]],
                    p.drop_first(),
                ) is Some));
            }
        }
    }
}

/// What holds of every node of a tree holds of every node of a subtree.
pub proof fn lemma_all_nodes_child<T>(t: Tree<T>, pred: spec_fn(T) -> bool, i: int)
    requires
        all_nodes(t, pred),
        0 <= i < t.children.len(),
    ensures
        all_nodes(t.children[i], pred),
{
    assert forall|q: Seq<int>| #[trigger] node_at(t.children[i], q) is Some implies pred(
        node_at(t.children[i], q)->0,
    ) by {
        let p = seq![i] + q;
        assert(p.drop_first() =~= q);
        lemma_node_at_step(t, p);
        assert(node_at(t, p) is Some);
    }
}

/// A tree whose root pairs the roots of `a` and `b` and whose subtrees zip
/// theirs, as far as both have subtrees, zips `a` and `b`.
proof fn lemma_zipped_from_parts<T, B>(a: Tree<T>, b: Tree<B>, z: Tree<(T, B)>)
    requires
        z.value == (a.value, b.value),
        z.children.len() == if a.children.len() <= b.children.len() {
            a.children.len()
        } else {
            b.children.len()
        },
        forall|j: int|
            0 <= j < z.children.len() ==> #[trigger] zipped(a.children[j], b.children[j], z.children[j]),
    ensures
        zipped(a, b, z),
{
    assert forall|p: Seq<int>|
        #![trigger node_at(z, p)]
        #![trigger node_at(a, p)]
        #![trigger node_at(b, p)]
        {
            &&& (node_at(z, p) is Some) == (node_at(a, p) is Some && node_at(b, p) is Some)
            &&& node_at(z, p) is Some ==> node_at(z, p)->0 == (node_at(a, p)->0, node_at(b, p)->0)
        } by {
        if p.len() > 0 {
            lemma_node_at_step(a, p);
            lemma_node_at_step(b, p);
            lemma_node_at_step(z, p);
            if 0 <= p[0] < z.children.len() {
                assert(zipped(a.children[p[0]], b.children[p[0]], z.children[p[0]]));
                let q = p.drop_first();
                assert(node_at(z.children[p[0]], q) is Some == (node_at(a.children[p[0]], q) is Some
                    && node_at(b.children[p[0]], q) is Some));
            }
        }
    }
}

/// Pre-order splits into the root and its subtrees' pre-orders.
pub proof fn lemma_preorder_first_step<T>(t: Tree<T>, k: nat)
    requires
        0 < k <= t.children.len(),
    ensures
        preorder_first(t, k) == preorder_first(t, (k - 1) as nat) + preorder(t.children[k - 1]),
{
}

/// The pre-orders of the first `k` subtrees begin those of the first `m`.
pub proof fn lemma_preorder_first_prefix<T>(t: Tree<T>, k: nat, m: nat)
    requires
        k <= m <= t.children.len(),
    ensures
        preorder_first(t, k).len() <= preorder_first(t, m).len(),
        forall|i: int|
            0 <= i < preorder_first(t, k).len() ==> #[trigger] preorder_first(t, m)[i]
                == preorder_first(t, k)[i],
    decreases m - k,
{
    if k < m {
        lemma_preorder_first_prefix(t, k, (m - 1) as nat);
        lemma_preorder_first_step(t, m);
    }
}

/// The sum of `g` over the values of `t`.
pub open spec fn tree_sum<T>(t: Tree<T>, g: spec_fn(T) -> int) -> int
    decreases t, 1nat, 0nat,
{
    g(t.value) + sum_first(t, g, t.children.len() as nat)
}

/// The sum of `g` over the first `k` subtrees of `t`.
pub open spec fn sum_first<T>(t: Tree<T>, g: spec_fn(T) -> int, k: nat) -> int
    decreases t, 0nat, k,
{
    if k == 0 || k > t.children.len() {
        0
    } else {
        sum_first(t, g, (k - 1) as nat) + tree_sum(t.children[k - 1], g)
    }
}

/// The path into a subtree, seen from the whole tree.
pub proof fn lemma_node_at_child<T>(t: Tree<T>, j: int, q: Seq<int>)
    requires
        0 <= j < t.children.len(),
    ensures
        node_at(t, seq![j] + q) == node_at(t.children[j], q),
{
    let p = seq![j] + q;
    assert(p.drop_first() =~= q);
    lemma_node_at_step(t, p);
}

/// Trees of the same shape have subtrees of the same shapes.
pub proof fn lemma_same_shape_children<T, U>(a: Tree<T>, b: Tree<U>)
    requires
        same_shape(a, b),
    ensures
        a.children.len() == b.children.len(),
        forall|j: int| 0 <= j < a.children.len() ==> #[trigger] same_shape(a.children[j], b.children[j]),
{
    let e = Seq::<int>::empty();
    if a.children.len() != b.children.len() {
        let j: int = if a.children.len() < b.children.len() {
            a.children.len() as int
        } else {
            b.children.len() as int
        };
        lemma_node_at_step(a, seq![j]);
        lemma_node_at_step(b, seq![j]);
        assert(seq![j].drop_first() =~= e);
        assert(node_at(a, seq![j]) is Some != node_at(b, seq![j]) is Some);
    }
    assert forall|j: int| 0 <= j < a.children.len() implies #[trigger] same_shape(
        a.children[j],
        b.children[j],
    ) by {
        assert forall|q: Seq<int>|
            #![trigger node_at(a.children[j], q)]
            #![trigger node_at(b.children[j], q)]
            (node_at(a.children[j], q) is Some) == (node_at(b.children[j], q) is Some) by {
            lemma_node_at_child(a, j, q);
            lemma_node_at_child(b, j, q);
            assert((node_at(a, seq![j] + q) is Some) == (node_at(b, seq![j] + q) is Some));
        }
    }
}

/// When `g` on `b` exceeds `g` on `a` by `delta`, node for node, the sums
/// differ by the sum of `delta`.
pub proof fn lemma_tree_sum_shift<T>(
    a: Tree<T>,
    b: Tree<T>,
    g: spec_fn(T) -> int,
    delta: spec_fn(T) -> int,
)
    requires
        same_shape(a, b),
        forall|p: Seq<int>|
            #[trigger] node_at(a, p) is Some ==> g(node_at(b, p)->0) == g(node_at(a, p)->0) + delta(
                node_at(a, p)->0,
            ),
    ensures
        tree_sum(b, g) == tree_sum(a, g) + tree_sum(a, delta),
    decreases a, 1nat, 0nat,
{
    let e = Seq::<int>::empty();
    assert(node_at(a, e) is Some);
    assert(node_at(b, e) is Some);
    lemma_same_shape_children(a, b);
    lemma_tree_sum_shift_first(a, b, g, delta, a.children.len() as nat);
}

proof fn lemma_tree_sum_shift_first<T>(
    a: Tree<T>,
    b: Tree<T>,
    g: spec_fn(T) -> int,
    delta: spec_fn(T) -> int,
    k: nat,
)
    requires
        same_shape(a, b),
        a.children.len() == b.children.len(),
        k <= a.children.len(),
        forall|p: Seq<int>|
            #[trigger] node_at(a, p) is Some ==> g(node_at(b, p)->0) == g(node_at(a, p)->0) + delta(
                node_at(a, p)->0,
            ),
    ensures
        sum_first(b, g, k) == sum_first(a, g, k) + sum_first(a, delta, k),
    decreases a, 0nat, k,
{
    if k > 0 {
        let j = k - 1;
        lemma_same_shape_children(a, b);
        assert(same_shape(a.children[j], b.children[j]));
        assert forall|q: Seq<int>|
            #[trigger] node_at(a.children[j], q) is Some implies g(node_at(b.children[j], q)->0) == g(
                node_at(a.children[j], q)->0,
            ) + delta(node_at(a.children[j], q)->0) by {
            lemma_node_at_child(a, j, q);
            lemma_node_at_child(b, j, q);
            assert(node_at(a, seq![j] + q) is Some);
        }
        assert(decreases_to!(a => a.children[j]));
        lemma_tree_sum_shift(a.children[j], b.children[j], g, delta);
        lemma_tree_sum_shift_first(a, b, g, delta, (k - 1) as nat);
    }
}

impl<T> Tree<T> {
    /// Returns the tree grown from the seed `b`: `f` gives each node's value
    /// and the seeds of its subtrees, which are grown in turn. Each seed
    /// that `f` gives must rank below the one it came from.
    pub fn unfold<F, B: Seed>(f: &F, b: &B) -> (r: Tree<T>)
        where
            F: Fn(&B) -> (T, Vec<B>),
        requires
            forall|x: &B| f.requires((x,)),
            forall|x: &B, out: (T, Vec<B>)|
                #[trigger] f.ensures((x,), out) ==> forall|i: int|
                    0 <= i < out.1.len() ==> out.1@[i].rank() < x.rank(),
        ensures
            unfolds(r, *f, *b),
        decreases b.rank(),
    {
        let (value, seeds) = f(b);
        let ghost out = (value, seeds);
        assert(forall|i: int| 0 <= i < seeds.len() ==> seeds@[i].rank() < b.rank());
        let mut children: Vec<Tree<T>> = Vec::new();
        let ghost mut grow: Seq<spec_fn(Seq<int>) -> B> = seq![];
        let mut i: usize = 0;
        while i < seeds.len()
            invariant
                forall|x: &B| f.requires((x,)),
                forall|x: &B, out: (T, Vec<B>)|
                    #[trigger] f.ensures((x,), out) ==> forall|i: int|
                        0 <= i < out.1.len() ==> out.1@[i].rank() < x.rank(),
                forall|j: int| 0 <= j < seeds.len() ==> seeds@[j].rank() < b.rank(),
                i <= seeds.len(),
                children.len() == i,
                grow.len() == i,
                forall|j: int|
                    0 <= j < i ==> (#[trigger] grow[j])(Seq::empty()) == seeds@[j] && grown_from(
                        children@[j],
                        *f,
                        grow[j],
                    ),
            decreases seeds.len() - i,
        {
            let c = Tree::unfold(f, &seeds[i]);
            proof {
                let sf = choose|sf: spec_fn(Seq<int>) -> B|
                    #[trigger] sf(Seq::empty()) == seeds@[i as int] && grown_from(c, *f, sf);
                grow = grow.push(sf);
            }
            children.push(c);
            i = i + 1;
        }
        let r = Tree { value, children };
        proof {
            let seed_at = |p: Seq<int>|
                if p.len() == 0 {
                    *b
                } else if 0 <= p[0] < grow.len() {
                    grow[p[0]](p.drop_first())
                } else {
                    *b
                };
            assert forall|p: Seq<int>| #[trigger] node_at(r, p) is Some implies exists|cs: Vec<B>|
                {
                    &&& #[trigger] call_ensures(*f, (&seed_at(p),), (node_at(r, p)->0, cs))
                    &&& cs.len() == degree_at(r, p)
                    &&& forall|i: int| 0 <= i < cs.len() ==> cs@[i] == seed_at(p.push(i))
                } by {
                if p.len() == 0 {
                    assert forall|i: int| 0 <= i < seeds.len() implies seeds@[i] == seed_at(p.push(i)) by {
                        assert(p.push(i).drop_first() =~= Seq::<int>::empty());
                        assert(p.push(i)[0] == i);
                    }
                    assert(call_ensures(*f, (&seed_at(p),), (node_at(r, p)->0, seeds)));
                } else {
                    lemma_node_at_step(r, p);
                    let j = p[0];
                    let q = p.drop_first();
                    assert(node_at(children@[j], q) is Some);
                    let cs = choose|cs: Vec<B>|
                        {
                            &&& #[trigger] call_ensures(*f, (&grow[j](q),), (node_at(children@[j], q)->0, cs))
                            &&& cs.len() == degree_at(children@[j], q)
                            &&& forall|i: int| 0 <= i < cs.len() ==> cs@[i] == grow[j](q.push(i))
                        };
                    assert forall|i: int| 0 <= i < cs.len() implies cs@[i] == seed_at(p.push(i)) by {
                        assert(p.push(i).drop_first() =~= q.push(i));
                        assert(p.push(i)[0] == j);
                    }
                    assert(call_ensures(*f, (&seed_at(p),), (node_at(r, p)->0, cs)));
                }
            }
            assert(seed_at(Seq::empty()) == *b);
            assert(grown_from(r, *f, seed_at));
        }
        r
    }

    /// Returns the tree of `f`'s results on references to the values, of
    /// the same shape.
    pub fn fmap<B, F: Fn(&T) -> B>(&self, f: &F) -> (r: Tree<B>)
        requires
            all_nodes(*self, |x: T| f.requires((&x,))),
        ensures
            mapped_by(*self, r, *f),
        decreases self,
    {
        assert(node_at(*self, Seq::empty()) == Some(self.value));
        let value = f(&self.value);
        let mut children: Vec<Tree<B>> = Vec::new();
        let mut i: usize = 0;
        while i < self.children.len()
            invariant
                all_nodes(*self, |x: T| f.requires((&x,))),
                i <= self.children.len(),
                children.len() == i,
                forall|j: int|
                    0 <= j < i ==> #[trigger] mapped_by(self.children[j], children[j], *f),
            decreases self.children.len() - i,
        {
            proof {
                lemma_all_nodes_child(*self, |x: T| f.requires((&x,)), i as int);
            }
            let c = self.children[i].fmap(f);
            children.push(c);
            i = i + 1;
        }
        let r = Tree { value, children };
        proof {
            lemma_mapped_from_parts(*self, r, *f);
        }
        r
    }

    /// Returns the tree of `f`'s results on the values, which it takes
    /// over, of the same shape.
    pub fn fmap_ref<B, F: Fn(T) -> B>(self, f: &F) -> (r: Tree<B>)
        requires
            all_nodes(self, |x: T| f.requires((x,))),
        ensures
            moved_by(self, r, *f),
        decreases self,
    {
        let ghost old_tree = self;
        assert(node_at(self, Seq::empty()) == Some(self.value));
        let Tree { value, children: mut rest } = self;
        let value = f(value);
        let mut children: Vec<Tree<B>> = Vec::new();
        let ghost n = rest.len();
        while rest.len() > 0
            invariant
                old_tree == self,
                all_nodes(old_tree, |x: T| f.requires((x,))),
                old_tree.children.len() == n,
                children.len() + rest.len() == n,
                rest@ == old_tree.children@.subrange(children.len() as int, n as int),
                forall|j: int|
                    0 <= j < children.len() ==> #[trigger] moved_by(
                        old_tree.children[j],
                        children[j],
                        *f,
                    ),
            decreases rest.len(),
        {
            let ghost i = children.len() as int;
            proof {
                lemma_all_nodes_child(old_tree, |x: T| f.requires((x,)), i);
            }
            let c = rest.remove(0);
            proof {
                assert(c == old_tree.children[i]);
                assert(decreases_to!(old_tree => old_tree.children));
                assert(decreases_to!(old_tree.children => old_tree.children[i]));
                assert(decreases_to!(old_tree => c));
            }
            let m = c.fmap_ref(f);
            children.push(m);
            proof {
                assert(rest@ =~= old_tree.children@.subrange(children.len() as int, n as int));
            }
        }
        let r = Tree { value, children };
        proof {
            lemma_moved_from_parts(old_tree, r, *f);
        }
        r
    }
    /// Returns the tree pairing the values of `self` and `other` where
    /// both have a node; extra subtrees of either are dropped.
    pub fn zip<B>(self, other: Tree<B>) -> (r: Tree<(T, B)>)
        ensures
            zipped(self, other, r),
        decreases self,
    {
        let ghost a = self;
        let ghost b = other;
        let Tree { value: va, children: mut rest_a } = self;
        let Tree { value: vb, children: mut rest_b } = other;
        let mut children: Vec<Tree<(T, B)>> = Vec::new();
        while rest_a.len() > 0 && rest_b.len() > 0
            invariant
                a == self,
                children.len() + rest_a.len() == a.children.len(),
                children.len() + rest_b.len() == b.children.len(),
                rest_a@ == a.children@.subrange(children.len() as int, a.children.len() as int),
                rest_b@ == b.children@.subrange(children.len() as int, b.children.len() as int),
                forall|j: int|
                    0 <= j < children.len() ==> #[trigger] zipped(
                        a.children[j],
                        b.children[j],
                        children[j],
                    ),
            decreases rest_a.len(),
        {
            let ghost i = children.len() as int;
            let ca = rest_a.remove(0);
            let cb = rest_b.remove(0);
            proof {
                assert(ca == a.children[i]);
                assert(cb == b.children[i]);
                assert(decreases_to!(a => a.children));
                assert(decreases_to!(a.children => a.children[i]));
                assert(decreases_to!(a => ca));
            }
            let z = ca.zip(cb);
            children.push(z);
            proof {
                assert(rest_a@ =~= a.children@.subrange(children.len() as int, a.children.len() as int));
                assert(rest_b@ =~= b.children@.subrange(children.len() as int, b.children.len() as int));
            }
        }
        let r = Tree { value: (va, vb), children };
        proof {
            lemma_zipped_from_parts(a, b, r);
        }
        r
    }

    /// Returns references to the values in pre-order: each node before its
    /// subtrees, subtrees left to right.
    pub fn iter(&self) -> (r: Vec<&T>)
        ensures
            r.len() == preorder(*self).len(),
            forall|i: int| 0 <= i < r.len() ==> *#[trigger] r@[i] == preorder(*self)[i],
        decreases self,
    {
        let mut out: Vec<&T> = vec![&self.value];
        let mut k: usize = 0;
        proof {
            assert(preorder_first(*self, 0) =~= Seq::<T>::empty());
        }
        while k < self.children.len()
            invariant
                k <= self.children.len(),
                out.len() == 1 + preorder_first(*self, k as nat).len(),
                *out@[0] == self.value,
                forall|i: int|
                    0 <= i < preorder_first(*self, k as nat).len() ==> *#[trigger] out@[i + 1]
                        == preorder_first(*self, k as nat)[i],
            decreases self.children.len() - k,
        {
            let mut below = self.children[k].iter();
            proof {
                lemma_preorder_first_step(*self, (k + 1) as nat);
            }
            let ghost before = out@;
            out.append(&mut below);
            k = k + 1;
            proof {
                let prev = preorder_first(*self, (k - 1) as nat);
                let sub = preorder(self.children[k - 1]);
                assert forall|i: int| 0 <= i < preorder_first(*self, k as nat).len() implies *#[trigger] out@[i
                    + 1] == preorder_first(*self, k as nat)[i] by {
                    if i < prev.len() {
                        assert(out@[i + 1] == before[i + 1]);
                    }
                }
            }
        }
        proof {
            assert forall|i: int| 0 <= i < out.len() implies *#[trigger] out@[i] == preorder(*self)[i] by {
                if i > 0 {
                    assert(out@[(i - 1) + 1] == out@[i]);
                }
            }
        }
        out
    }

    /// Returns the values in pre-order: each node before its subtrees,
    /// subtrees left to right.
    pub fn flatten(self) -> (r: Vec<T>)
        ensures
            r@ == preorder(self),
        decreases self,
    {
        let ghost t = self;
        let Tree { value, children: mut rest } = self;
        let mut out: Vec<T> = vec![value];
        let ghost n = rest.len();
        let mut k: usize = 0;
        proof {
            assert(out@ =~= seq![t.value] + preorder_first(t, 0));
        }
        while rest.len() > 0
            invariant
                t == self,
                t.children.len() == n,
                k + rest.len() == n,
                rest@ == t.children@.subrange(k as int, n as int),
                out@ == seq![t.value] + preorder_first(t, k as nat),
            decreases rest.len(),
        {
            let c = rest.remove(0);
            proof {
                assert(c == t.children[k as int]);
                assert(decreases_to!(t => t.children));
                assert(decreases_to!(t.children => t.children[k as int]));
                assert(decreases_to!(t => c));
                lemma_preorder_first_step(t, (k + 1) as nat);
            }
            let mut below = c.flatten();
            out.append(&mut below);
            k = k + 1;
            proof {
                assert(rest@ =~= t.children@.subrange(k as int, n as int));
                assert(out@ =~= seq![t.value] + preorder_first(t, k as nat));
            }
        }
        out
    }
}

} // verus!
