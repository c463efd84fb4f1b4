use vstd::laws_eq::obeys_concrete_eq;
use vstd::multiset::Multiset;
use vstd::prelude::*;

verus! {

/// The part of `s` from `i` on, last element first: what is left to take,
/// by popping, from a reversed sequence after `i` pops.
pub open spec fn rest_rev<A>(s: Seq<A>, i: int) -> Seq<A> {
    s.subrange(i, s.len() as int).reverse()
}

proof fn lemma_rest_rev_pop<A>(s: Seq<A>, i: int)
    requires
        0 <= i < s.len(),
    ensures
        rest_rev(s, i).len() > 0,
        rest_rev(s, i).last() == s[i],
        rest_rev(s, i).drop_last() == rest_rev(s, i + 1),
{
    assert(rest_rev(s, i).drop_last() =~= rest_rev(s, i + 1));
}

proof fn lemma_rest_rev_start<A>(s: Seq<A>)
    ensures
        rest_rev(s, 0) == s.reverse(),
        rest_rev(s, s.len() as int).len() == 0,
{
    assert(s.subrange(0, s.len() as int) =~= s);
}

/// Returns the first component of a pair.
pub fn fst<A, B>(pair: (A, B)) -> (r: A)
    ensures
        r == pair.0,
{
    pair.0
}

/// Returns the second component of a pair.
pub fn snd<A, B>(pair: (A, B)) -> (r: B)
    ensures
        r == pair.1,
{
    pair.1
}

/// Returns its argument.
pub fn id<A>(a: A) -> (r: A)
    ensures
        r == a,
{
    a
}

/// Returns the elements of `xs` in reverse order.
pub fn reverse<A>(xs: Vec<A>) -> (r: Vec<A>)
    ensures
        r@ == xs@.reverse(),
{
    let ghost s = xs@;
    let mut rest = xs;
    let mut out: Vec<A> = Vec::new();
    while rest.len() > 0
        invariant
            rest.len() + out.len() == s.len(),
            rest@ == s.take(rest.len() as int),
            out@ == s.skip(rest.len() as int).reverse(),
        decreases rest.len(),
    {
        let ghost k = rest.len() as int;
        let x = rest.pop().unwrap();
        out.push(x);
        proof {
            assert(rest@ =~= s.take(rest.len() as int));
            assert(out@ =~= s.skip(rest.len() as int).reverse());
        }
    }
    proof {
        assert(s.skip(0) =~= s);
    }
    out
}

/// There is a chain of accumulators from `init` to `r`, each what `f` may
/// give for the one before and the next element, from the left.
pub open spec fn folds_left<A, B, F: Fn(B, A) -> B>(f: F, init: B, xs: Seq<A>, r: B) -> bool {
    exists|accs: Seq<B>|
        {
            &&& accs.len() == xs.len() + 1
            &&& accs[0] == init
            &&& #[trigger] accs[xs.len() as int] == r
            &&& forall|i: int| 0 <= i < xs.len() ==> call_ensures(f, (accs[i], xs[i]), #[trigger] accs[i + 1])
        }
}

/// There is a chain of accumulators from `init` to `r`, each what `f` may
/// give for the next element and the one before, from the right.
pub open spec fn folds_right<A, B, F: Fn(A, B) -> B>(f: F, init: B, xs: Seq<A>, r: B) -> bool {
    exists|accs: Seq<B>|
        {
            &&& accs.len() == xs.len() + 1
            &&& accs[xs.len() as int] == init
            &&& #[trigger] accs[0] == r
            &&& forall|i: int| 0 <= i < xs.len() ==> call_ensures(f, (xs[i], accs[i + 1]), #[trigger] accs[i])
        }
}

/// Left-associative fold: `f(... f(f(acc, x0), x1) ..., xn)`.
pub fn foldl<A, B, F: Fn(B, A) -> B>(f: F, acc: B, xs: Vec<A>) -> (r: B)
    requires
        forall|b: B, a: A| f.requires((b, a)),
    ensures
        folds_left(f, acc, xs@, r),
{
    let ghost s = xs@;
    let ghost n = s.len() as int;
    assert(n == xs.len());
    let mut rest = reverse(xs);
    proof {
        lemma_rest_rev_start(s);
        assert(rest@.len() == n);
    }
    let ghost init = acc;
    let mut acc = acc;
    let ghost mut accs = seq![acc];
    let mut i: usize = 0;
    while rest.len() > 0
        invariant
            forall|b: B, a: A| f.requires((b, a)),
            s == xs@,
            n == s.len(),
            n <= usize::MAX,
            accs[0] == init,
            0 <= i <= n,
            rest@ == rest_rev(s, i as int),
            rest.len() == n - i,
            accs.len() == i + 1,
            accs[i as int] == acc,
            forall|j: int| 0 <= j < i ==> call_ensures(f, (accs[j], s[j]), #[trigger] accs[j + 1]),
        decreases rest.len(),
    {
        proof {
            lemma_rest_rev_pop(s, i as int);
        }
        let x = rest.pop().unwrap();
        let ghost prev = accs;
        acc = f(acc, x);
        proof {
            accs = accs.push(acc);
            assert forall|j: int| 0 <= j < i + 1 implies call_ensures(f, (accs[j], s[j]), #[trigger] accs[j + 1]) by {
                if j < i {
                    assert(accs[j] == prev[j] && accs[j + 1] == prev[j + 1]);
                }
            }
        }
        i = i + 1;
    }
    proof {
        assert(accs[s.len() as int] == acc);
    }
    acc
}

/// Right-associative fold: `f(x0, f(x1, ... f(xn, acc) ...))`.
pub fn foldr<A, B, F: Fn(A, B) -> B>(f: F, acc: B, xs: Vec<A>) -> (r: B)
    requires
        forall|a: A, b: B| f.requires((a, b)),
    ensures
        folds_right(f, acc, xs@, r),
{
    let ghost s = xs@;
    let ghost n = s.len() as int;
    assert(n == xs.len());
    let mut rest = xs;
    let mut cur = acc;
    let ghost mut tail: Seq<B> = seq![cur];
    proof {
        assert(rest@ =~= s.take(rest.len() as int));
    }
    while rest.len() > 0
        invariant
            forall|a: A, b: B| f.requires((a, b)),
            s == xs@,
            n == s.len(),
            
            rest.len() <= n,
            rest@ == s.take(rest.len() as int),
            tail.len() == n - rest.len() + 1,
            n <= usize::MAX,
            tail[0] == cur,
            tail[n - rest.len()] == acc,
            forall|j: int|
                rest.len() <= j < n ==> call_ensures(
                    f,
                    (s[j], tail[j - rest.len() + 1]),
                    #[trigger] tail[j - rest.len()],
                ),
        decreases rest.len(),
    {
        let ghost k = rest.len() as int;
        let ghost prev = tail;
        let x = rest.pop().unwrap();
        proof {
            assert(x == s[k - 1]);
        }
        cur = f(x, cur);
        proof {
            tail = seq![cur] + tail;
            assert(rest@ =~= s.take(rest.len() as int));
            assert forall|j: int| k - 1 <= j < n implies call_ensures(
                f,
                (s[j], tail[j - (k - 1) + 1]),
                #[trigger] tail[j - (k - 1)],
            ) by {
                if j >= k {
                    assert(tail[j - (k - 1)] == prev[j - k]);
                    assert(tail[j - (k - 1) + 1] == prev[j - k + 1]);
                }
            }
        }
    }
    proof {
        assert(rest.len() == 0);
        assert forall|j: int| 0 <= j < n implies call_ensures(f, (s[j], tail[j + 1]), #[trigger] tail[j]) by {
            assert(tail[j - rest.len()] == tail[j]);
        }
        assert(tail[0] == cur);
    }
    cur
}

/// `a == b`, for a type whose `==` is equality of values.
fn equals<A: PartialEq>(a: &A, b: &A) -> (r: bool)
    requires
        obeys_concrete_eq::<A>(),
    ensures
        r == (*a == *b),
{
    proof {
        reveal(obeys_concrete_eq);
    }
    a.eq(b)
}

/// Returns whether `x` occurs in `xs`.
pub fn elem<A: PartialEq>(x: A, xs: Vec<A>) -> (r: bool)
    requires
        obeys_concrete_eq::<A>(),
    ensures
        r == xs@.contains(x),
{
    let mut i: usize = 0;
    while i < xs.len()
        invariant
            obeys_concrete_eq::<A>(),
            i <= xs.len(),
            forall|j: int| 0 <= j < i ==> xs@[j] != x,
        decreases xs.len() - i,
    {
        if equals(&xs[i], &x) {
            assert(xs@[i as int] == x);
            return true;
        }
        i = i + 1;
    }
    false
}

/// Returns whether `f` holds of some element, stopping at the first.
pub fn any<A, F: Fn(A) -> bool>(f: F, xs: Vec<A>) -> (r: bool)
    requires
        forall|a: A| f.requires((a,)),
    ensures
        r ==> exists|i: int| 0 <= i < xs.len() && call_ensures(f, (#[trigger] xs@[i],), true),
        !r ==> forall|i: int| 0 <= i < xs.len() ==> call_ensures(f, (#[trigger] xs@[i],), false),
{
    let ghost s = xs@;
    let ghost n = s.len() as int;
    assert(n == xs.len());
    let mut rest = reverse(xs);
    proof {
        lemma_rest_rev_start(s);
    }
    let mut i: usize = 0;
    while rest.len() > 0
        invariant
            forall|a: A| f.requires((a,)),
            s == xs@,
            n == s.len(),
            n <= usize::MAX,
            0 <= i <= n,
            rest@ == rest_rev(s, i as int),
            rest.len() == n - i,
            forall|j: int| 0 <= j < i ==> call_ensures(f, (#[trigger] s[j],), false),
        decreases rest.len(),
    {
        proof {
            lemma_rest_rev_pop(s, i as int);
        }
        let x = rest.pop().unwrap();
        if f(x) {
            return true;
        }
        i = i + 1;
    }
    false
}

/// Returns whether `f` holds of every element, stopping at the first
/// element where it fails.
pub fn all<A, F: Fn(A) -> bool>(f: F, xs: Vec<A>) -> (r: bool)
    requires
        forall|a: A| f.requires((a,)),
    ensures
        r ==> forall|i: int| 0 <= i < xs.len() ==> call_ensures(f, (#[trigger] xs@[i],), true),
        !r ==> exists|i: int| 0 <= i < xs.len() && call_ensures(f, (#[trigger] xs@[i],), false),
{
    let ghost s = xs@;
    let ghost n = s.len() as int;
    assert(n == xs.len());
    let mut rest = reverse(xs);
    proof {
        lemma_rest_rev_start(s);
    }
    let mut i: usize = 0;
    while rest.len() > 0
        invariant
            forall|a: A| f.requires((a,)),
            s == xs@,
            n == s.len(),
            n <= usize::MAX,
            0 <= i <= n,
            rest@ == rest_rev(s, i as int),
            rest.len() == n - i,
            forall|j: int| 0 <= j < i ==> call_ensures(f, (#[trigger] s[j],), true),
        decreases rest.len(),
    {
        proof {
            lemma_rest_rev_pop(s, i as int);
        }
        let x = rest.pop().unwrap();
        if !f(x) {
            return false;
        }
        i = i + 1;
    }
    true
}

/// Returns `f` applied to each element, in order.
pub fn map<A, B, F: Fn(A) -> B>(f: F, xs: Vec<A>) -> (r: Vec<B>)
    requires
        forall|a: A| f.requires((a,)),
    ensures
        r.len() == xs.len(),
        forall|i: int| 0 <= i < xs.len() ==> call_ensures(f, (xs@[i],), #[trigger] r@[i]),
{
    let ghost s = xs@;
    let ghost n = s.len() as int;
    assert(n == xs.len());
    let mut rest = reverse(xs);
    proof {
        lemma_rest_rev_start(s);
    }
    let mut out: Vec<B> = Vec::new();
    while rest.len() > 0
        invariant
            forall|a: A| f.requires((a,)),
            s == xs@,
            n == s.len(),
            out.len() <= n,
            rest@ == rest_rev(s, out.len() as int),
            rest.len() == n - out.len(),
            forall|j: int| 0 <= j < out.len() ==> call_ensures(f, (s[j],), #[trigger] out@[j]),
        decreases rest.len(),
    {
        proof {
            lemma_rest_rev_pop(s, out.len() as int);
        }
        let x = rest.pop().unwrap();
        let y = f(x);
        out.push(y);
    }
    out
}

/// Returns the elements of `xs` followed by those of `ys`.
pub fn append<A>(xs: Vec<A>, ys: Vec<A>) -> (r: Vec<A>)
    ensures
        r@ == xs@ + ys@,
{
    let mut r = xs;
    let mut ys = ys;
    r.append(&mut ys);
    r
}

/// The elements of `xs` whose flag in `keep` is set, in order.
pub open spec fn kept<A>(xs: Seq<A>, keep: Seq<bool>) -> Seq<A>
    decreases xs.len(),
{
    if xs.len() == 0 {
        seq![]
    } else {
        let prev = kept(xs.drop_last(), keep.drop_last());
        if keep.last() {
            prev.push(xs.last())
        } else {
            prev
        }
    }
}

/// Returns the elements for which `f` holds, in order.
pub fn filter<A, F: Fn(&A) -> bool>(f: F, xs: Vec<A>) -> (r: Vec<A>)
    requires
        forall|a: &A| f.requires((a,)),
    ensures
        exists|keep: Seq<bool>|
            {
                &&& keep.len() == xs.len()
                &&& forall|i: int| 0 <= i < xs.len() ==> call_ensures(f, (&xs@[i],), #[trigger] keep[i])
                &&& r@ == kept(xs@, keep)
            },
{
    let ghost s = xs@;
    let ghost n = s.len() as int;
    assert(n == xs.len());
    let mut rest = reverse(xs);
    proof {
        lemma_rest_rev_start(s);
        assert(s.take(0) =~= Seq::<A>::empty());
    }
    let mut out: Vec<A> = Vec::new();
    let ghost mut keep: Seq<bool> = seq![];
    let mut i: usize = 0;
    while rest.len() > 0
        invariant
            forall|a: &A| f.requires((a,)),
            s == xs@,
            n == s.len(),
            n <= usize::MAX,
            0 <= i <= n,
            rest@ == rest_rev(s, i as int),
            rest.len() == n - i,
            keep.len() == i,
            forall|j: int| 0 <= j < i ==> call_ensures(f, (&s[j],), #[trigger] keep[j]),
            out@ == kept(s.take(i as int), keep),
        decreases rest.len(),
    {
        proof {
            lemma_rest_rev_pop(s, i as int);
        }
        let x = rest.pop().unwrap();
        let b = f(&x);
        let ghost prev = keep;
        proof {
            keep = keep.push(b);
            assert(s.take(i + 1).drop_last() =~= s.take(i as int));
            assert(keep.drop_last() =~= prev);
            assert(s.take(i + 1).last() == x);
        }
        if b {
            out.push(x);
        }
        i = i + 1;
    }
    proof {
        assert(s.take(n) =~= s);
    }
    out
}

/// Returns the first element. `xs` must not be empty.
pub fn head<A>(xs: Vec<A>) -> (r: A)
    requires
        xs.len() > 0,
    ensures
        r == xs@[0],
{
    let mut xs = xs;
    xs.swap_remove(0)
}

/// Returns the last element. `xs` must not be empty.
pub fn last<A>(xs: Vec<A>) -> (r: A)
    requires
        xs.len() > 0,
    ensures
        r == xs@.last(),
{
    let mut xs = xs;
    xs.pop().unwrap()
}

/// Returns all elements but the first (none for an empty vector).
pub fn tail<A>(xs: Vec<A>) -> (r: Vec<A>)
    ensures
        r@ == if xs.len() == 0 {
            xs@
        } else {
            xs@.drop_first()
        },
{
    let mut xs = xs;
    if xs.len() > 0 {
        xs.remove(0);
    }
    xs
}

/// Returns all elements but the last (none for an empty vector).
pub fn init<A>(xs: Vec<A>) -> (r: Vec<A>)
    ensures
        r@ == if xs.len() == 0 {
            xs@
        } else {
            xs@.drop_last()
        },
{
    let mut xs = xs;
    if xs.len() > 0 {
        xs.pop();
    }
    xs
}

/// Returns the element at index `n`, if there is one.
pub fn nth<A>(n: usize, xs: Vec<A>) -> (r: Option<A>)
    ensures
        r == if n < xs.len() {
            Some(xs@[n as int])
        } else {
            None
        },
{
    let mut xs = xs;
    if n < xs.len() {
        Some(xs.swap_remove(n))
    } else {
        None
    }
}

/// Returns the number of elements.
pub fn length<A>(xs: Vec<A>) -> (r: usize)
    ensures
        r == xs.len(),
{
    xs.len()
}

/// The sequences of `ss` one after another.
pub open spec fn joined<A>(ss: Seq<Seq<A>>) -> Seq<A>
    decreases ss.len(),
{
    if ss.len() == 0 {
        seq![]
    } else {
        joined(ss.drop_last()) + ss.last()
    }
}

/// The views of a sequence of vectors.
pub open spec fn views<A>(vs: Seq<Vec<A>>) -> Seq<Seq<A>> {
    vs.map_values(|v: Vec<A>| v@)
}

/// Returns the vectors of `xss` one after another.
pub fn concat<A>(xss: Vec<Vec<A>>) -> (r: Vec<A>)
    ensures
        r@ == joined(views(xss@)),
{
    let ghost s = xss@;
    let ghost n = s.len() as int;
    assert(n == xss.len());
    let mut rest = reverse(xss);
    proof {
        lemma_rest_rev_start(s);
        assert(views(s.take(0)) =~= Seq::<Seq<A>>::empty());
    }
    let mut out: Vec<A> = Vec::new();
    let mut i: usize = 0;
    while rest.len() > 0
        invariant
            s == xss@,
            n == s.len(),
            n <= usize::MAX,
            0 <= i <= n,
            rest@ == rest_rev(s, i as int),
            rest.len() == n - i,
            out@ == joined(views(s.take(i as int))),
        decreases rest.len(),
    {
        proof {
            lemma_rest_rev_pop(s, i as int);
        }
        let mut x = rest.pop().unwrap();
        proof {
            assert(views(s.take(i + 1)).drop_last() =~= views(s.take(i as int)));
            assert(views(s.take(i + 1)).last() == x@);
        }
        out.append(&mut x);
        i = i + 1;
    }
    proof {
        assert(s.take(n) =~= s);
    }
    out
}

/// Returns the vectors that `f` gives for the elements, one after another.
pub fn concat_map<A, B, F: Fn(A) -> Vec<B>>(f: F, xs: Vec<A>) -> (r: Vec<B>)
    requires
        forall|a: A| f.requires((a,)),
    ensures
        exists|outs: Seq<Vec<B>>|
            {
                &&& outs.len() == xs.len()
                &&& forall|i: int| 0 <= i < xs.len() ==> call_ensures(f, (xs@[i],), #[trigger] outs[i])
                &&& r@ == joined(views(outs))
            },
{
    let ghost s = xs@;
    let ghost n = s.len() as int;
    assert(n == xs.len());
    let mut rest = reverse(xs);
    proof {
        lemma_rest_rev_start(s);
        assert(views(Seq::<Vec<B>>::empty()) =~= Seq::<Seq<B>>::empty());
    }
    let mut out: Vec<B> = Vec::new();
    let ghost mut outs: Seq<Vec<B>> = seq![];
    let mut i: usize = 0;
    while rest.len() > 0
        invariant
            forall|a: A| f.requires((a,)),
            s == xs@,
            n == s.len(),
            n <= usize::MAX,
            0 <= i <= n,
            rest@ == rest_rev(s, i as int),
            rest.len() == n - i,
            outs.len() == i,
            forall|j: int| 0 <= j < i ==> call_ensures(f, (s[j],), #[trigger] outs[j]),
            out@ == joined(views(outs)),
        decreases rest.len(),
    {
        proof {
            lemma_rest_rev_pop(s, i as int);
        }
        let x = rest.pop().unwrap();
        let mut ys = f(x);
        proof {
            let prev = outs;
            outs = outs.push(ys);
            assert(views(outs).drop_last() =~= views(prev));
        }
        out.append(&mut ys);
        i = i + 1;
    }
    out
}

/// Returns the running accumulators, from `init` through the fold of every
/// element.
pub fn scanl<A, B: Copy, F: Fn(&B, A) -> B>(f: F, init: B, xs: Vec<A>) -> (r: Vec<B>)
    requires
        forall|b: &B, a: A| f.requires((b, a)),
    ensures
        r.len() == xs.len() + 1,
        r@[0] == init,
        forall|i: int| 0 <= i < xs.len() ==> call_ensures(f, (&r@[i], xs@[i]), #[trigger] r@[i + 1]),
{
    let ghost s = xs@;
    let ghost n = s.len() as int;
    assert(n == xs.len());
    let mut rest = reverse(xs);
    proof {
        lemma_rest_rev_start(s);
    }
    let mut out: Vec<B> = vec![init];
    let mut acc = init;
    let mut i: usize = 0;
    while rest.len() > 0
        invariant
            forall|b: &B, a: A| f.requires((b, a)),
            s == xs@,
            n == s.len(),
            n <= usize::MAX,
            0 <= i <= n,
            rest@ == rest_rev(s, i as int),
            rest.len() == n - i,
            out.len() == i + 1,
            out@[0] == init,
            out@[i as int] == acc,
            forall|j: int| 0 <= j < i ==> call_ensures(f, (&out@[j], s[j]), #[trigger] out@[j + 1]),
        decreases rest.len(),
    {
        proof {
            lemma_rest_rev_pop(s, i as int);
        }
        let x = rest.pop().unwrap();
        acc = f(&acc, x);
        out.push(acc);
        i = i + 1;
    }
    out
}

/// Returns the running accumulators of a fold seeded with the first
/// element (none for an empty vector).
pub fn scanl1<A: Copy, F: Fn(&A, A) -> A>(f: F, xs: Vec<A>) -> (r: Vec<A>)
    requires
        forall|b: &A, a: A| f.requires((b, a)),
    ensures
        r.len() == xs.len(),
        xs.len() > 0 ==> r@[0] == xs@[0],
        forall|i: int| 0 < i < xs.len() ==> call_ensures(f, (&r@[i - 1], xs@[i]), #[trigger] r@[i]),
{
    let mut out: Vec<A> = Vec::new();
    if xs.len() == 0 {
        return out;
    }
    let mut acc = xs[0];
    out.push(acc);
    let mut i: usize = 1;
    while i < xs.len()
        invariant
            forall|b: &A, a: A| f.requires((b, a)),
            1 <= i <= xs.len(),
            out.len() == i,
            out@[0] == xs@[0],
            out@[i - 1] == acc,
            forall|j: int| 0 < j < i ==> call_ensures(f, (&out@[j - 1], xs@[j]), #[trigger] out@[j]),
        decreases xs.len() - i,
    {
        acc = f(&acc, xs[i]);
        out.push(acc);
        i = i + 1;
    }
    out
}

/// Returns the first `n` of `a`, `f(a)`, `f(f(a))`, ...
pub fn iterate<A: Copy, F: Fn(&A) -> A>(f: F, a: A, n: usize) -> (r: Vec<A>)
    requires
        forall|x: &A| f.requires((x,)),
    ensures
        r.len() == n,
        n > 0 ==> r@[0] == a,
        forall|i: int| 0 < i < n ==> call_ensures(f, (&r@[i - 1],), #[trigger] r@[i]),
{
    let mut out: Vec<A> = Vec::new();
    if n == 0 {
        return out;
    }
    let mut cur = a;
    out.push(cur);
    while out.len() < n
        invariant
            forall|x: &A| f.requires((x,)),
            1 <= out.len() <= n,
            out@[0] == a,
            out@[out.len() - 1] == cur,
            forall|j: int| 0 < j < out.len() ==> call_ensures(f, (&out@[j - 1],), #[trigger] out@[j]),
        decreases n - out.len(),
    {
        cur = f(&cur);
        out.push(cur);
    }
    out
}

/// Returns `n` copies of `a`.
pub fn replicate<A: Copy>(n: usize, a: A) -> (r: Vec<A>)
    ensures
        r@ == Seq::new(n as nat, |i: int| a),
{
    let mut out: Vec<A> = Vec::new();
    while out.len() < n
        invariant
            out.len() <= n,
            forall|j: int| 0 <= j < out.len() ==> #[trigger] out@[j] == a,
        decreases n - out.len(),
    {
        out.push(a);
    }
    assert(out@ =~= Seq::new(n as nat, |i: int| a));
    out
}

/// Returns the first `n` elements of the endless repetition of `a`.
pub fn repeat<A: Copy>(a: A, n: usize) -> (r: Vec<A>)
    ensures
        r@ == Seq::new(n as nat, |i: int| a),
{
    replicate(n, a)
}

/// Returns the first `n` elements of `xs` repeated without end (none when
/// `xs` is empty).
pub fn cycle<A: Copy>(xs: Vec<A>, n: usize) -> (r: Vec<A>)
    ensures
        r.len() == if xs.len() == 0 {
            0
        } else {
            n
        },
        forall|i: int| 0 <= i < r.len() ==> #[trigger] r@[i] == xs@[i % xs.len() as int],
{
    let mut out: Vec<A> = Vec::new();
    if xs.len() == 0 {
        return out;
    }
    let mut j: usize = 0;
    while out.len() < n
        invariant
            xs.len() > 0,
            out.len() <= n,
            j < xs.len(),
            j as int == out.len() as int % xs.len() as int,
            forall|i: int| 0 <= i < out.len() ==> #[trigger] out@[i] == xs@[i % xs.len() as int],
        decreases n - out.len(),
    {
        out.push(xs[j]);
        j = if j + 1 == xs.len() {
            0
        } else {
            j + 1
        };
        proof {
            let m = xs.len() as int;
            let k = out.len() as int;
            assert(k % m == if (k - 1) % m + 1 == m { 0 } else { (k - 1) % m + 1 }) by (nonlinear_arith)
                requires m > 0, k >= 1;
        }
    }
    out
}

/// Returns the first `n` elements (all of them when there are fewer).
pub fn take<A>(n: usize, xs: Vec<A>) -> (r: Vec<A>)
    ensures
        r@ == if n < xs.len() {
            xs@.take(n as int)
        } else {
            xs@
        },
{
    let mut xs = xs;
    xs.truncate(n);
    xs
}

/// Returns what follows the first `n` elements (nothing when there are
/// fewer).
pub fn drop<A>(n: usize, xs: Vec<A>) -> (r: Vec<A>)
    ensures
        r@ == if n < xs.len() {
            xs@.skip(n as int)
        } else {
            seq![]
        },
{
    let mut xs = xs;
    if n < xs.len() {
        xs.split_off(n)
    } else {
        Vec::new()
    }
}

/// `f` gives `!want` for the first `k` elements and, if there is one, `want`
/// for the element at `k`.
pub open spec fn first_where<A, F: Fn(&A) -> bool>(f: F, xs: Seq<A>, want: bool, k: int) -> bool {
    &&& 0 <= k <= xs.len()
    &&& forall|j: int| 0 <= j < k ==> call_ensures(f, (&xs[j],), !want)
    &&& k < xs.len() ==> call_ensures(f, (&xs[k],), want)
}

/// The index of the first element on which `f` gives `want`, or the length.
fn scan_until<A, F: Fn(&A) -> bool>(f: &F, xs: &Vec<A>, want: bool) -> (k: usize)
    requires
        forall|a: &A| f.requires((a,)),
    ensures
        first_where(*f, xs@, want, k as int),
{
    let mut i: usize = 0;
    while i < xs.len()
        invariant
            forall|a: &A| f.requires((a,)),
            i <= xs.len(),
            forall|j: int| 0 <= j < i ==> call_ensures(*f, (&xs@[j],), !want),
        decreases xs.len() - i,
    {
        let b = f(&xs[i]);
        if b == want {
            return i;
        }
        i = i + 1;
    }
    i
}

/// Returns the longest prefix on whose elements `f` holds.
pub fn take_while<A, F: Fn(&A) -> bool>(f: F, xs: Vec<A>) -> (r: Vec<A>)
    requires
        forall|a: &A| f.requires((a,)),
    ensures
        exists|k: int| first_where(f, xs@, false, k) && r@ == xs@.take(k),
{
    let k = scan_until(&f, &xs, false);
    let mut xs = xs;
    xs.truncate(k);
    xs
}

/// Returns what follows the longest prefix on whose elements `f` holds.
pub fn drop_while<A, F: Fn(&A) -> bool>(f: F, xs: Vec<A>) -> (r: Vec<A>)
    requires
        forall|a: &A| f.requires((a,)),
    ensures
        exists|k: int| first_where(f, xs@, false, k) && r@ == xs@.skip(k),
{
    let k = scan_until(&f, &xs, false);
    let mut xs = xs;
    xs.split_off(k)
}

/// Returns the longest prefix on whose elements `f` holds, and the rest.
pub fn span<A, F: Fn(&A) -> bool>(f: F, xs: Vec<A>) -> (r: (Vec<A>, Vec<A>))
    requires
        forall|a: &A| f.requires((a,)),
    ensures
        exists|k: int| first_where(f, xs@, false, k) && r.0@ == xs@.take(k) && r.1@ == xs@.skip(k),
{
    let k = scan_until(&f, &xs, false);
    let mut xs = xs;
    let rest = xs.split_off(k);
    (xs, rest)
}

/// Returns the first `n` elements and the rest.
pub fn split_at<A>(n: usize, xs: Vec<A>) -> (r: (Vec<A>, Vec<A>))
    ensures
        n < xs.len() ==> r.0@ == xs@.take(n as int) && r.1@ == xs@.skip(n as int),
        n >= xs.len() ==> r.0@ == xs@ && r.1@.len() == 0,
{
    let mut xs = xs;
    if n < xs.len() {
        let rest = xs.split_off(n);
        (xs, rest)
    } else {
        (xs, Vec::new())
    }
}

pub open spec fn min_len(a: nat, b: nat) -> nat {
    if a <= b {
        a
    } else {
        b
    }
}

/// Returns the pairs of elements at equal positions, as far as both reach.
pub fn zip<A, B>(xs: Vec<A>, ys: Vec<B>) -> (r: Vec<(A, B)>)
    ensures
        r.len() == min_len(xs@.len(), ys@.len()),
        forall|i: int| 0 <= i < r.len() ==> #[trigger] r@[i] == (xs@[i], ys@[i]),
{
    let ghost sa = xs@;
    let ghost sb = ys@;
    let m = if xs.len() <= ys.len() {
        xs.len()
    } else {
        ys.len()
    };
    let mut xs = xs;
    let mut ys = ys;
    xs.truncate(m);
    ys.truncate(m);
    let ghost ta = xs@;
    let ghost tb = ys@;
    let mut ra = reverse(xs);
    let mut rb = reverse(ys);
    proof {
        lemma_rest_rev_start(ta);
        lemma_rest_rev_start(tb);
    }
    let mut out: Vec<(A, B)> = Vec::new();
    while ra.len() > 0
        invariant
            ta.len() == m,
            tb.len() == m,
            forall|j: int| 0 <= j < m ==> ta[j] == sa[j] && tb[j] == sb[j],
            out.len() <= m,
            ra@ == rest_rev(ta, out.len() as int),
            rb@ == rest_rev(tb, out.len() as int),
            ra.len() == m - out.len(),
            forall|j: int| 0 <= j < out.len() ==> #[trigger] out@[j] == (sa[j], sb[j]),
        decreases ra.len(),
    {
        proof {
            lemma_rest_rev_pop(ta, out.len() as int);
            lemma_rest_rev_pop(tb, out.len() as int);
        }
        let a = ra.pop().unwrap();
        let b = rb.pop().unwrap();
        out.push((a, b));
    }
    out
}

/// Returns `f` applied to the elements at equal positions, as far as both
/// reach.
pub fn zip_with<A, B, C, F: Fn(A, B) -> C>(f: F, xs: Vec<A>, ys: Vec<B>) -> (r: Vec<C>)
    requires
        forall|a: A, b: B| f.requires((a, b)),
    ensures
        r.len() == min_len(xs@.len(), ys@.len()),
        forall|i: int| 0 <= i < r.len() ==> call_ensures(f, (xs@[i], ys@[i]), #[trigger] r@[i]),
{
    let ghost sa = xs@;
    let ghost sb = ys@;
    let pairs = zip(xs, ys);
    let ghost ps = pairs@;
    let ghost n = ps.len() as int;
    assert(n == pairs.len());
    let mut rest = reverse(pairs);
    proof {
        lemma_rest_rev_start(ps);
    }
    let mut out: Vec<C> = Vec::new();
    while rest.len() > 0
        invariant
            forall|a: A, b: B| f.requires((a, b)),
            n == ps.len(),
            forall|j: int| 0 <= j < n ==> #[trigger] ps[j] == (sa[j], sb[j]),
            out.len() <= n,
            rest@ == rest_rev(ps, out.len() as int),
            rest.len() == n - out.len(),
            forall|j: int| 0 <= j < out.len() ==> call_ensures(f, (sa[j], sb[j]), #[trigger] out@[j]),
        decreases rest.len(),
    {
        proof {
            lemma_rest_rev_pop(ps, out.len() as int);
            assert(ps[out.len() as int] == (sa[out.len() as int], sb[out.len() as int]));
        }
        let (a, b) = rest.pop().unwrap();
        out.push(f(a, b));
    }
    out
}

/// Returns the first and the second components of the pairs, in order.
pub fn unzip<A, B>(xs: Vec<(A, B)>) -> (r: (Vec<A>, Vec<B>))
    ensures
        r.0.len() == xs.len(),
        r.1.len() == xs.len(),
        forall|i: int| 0 <= i < xs.len() ==> #[trigger] r.0@[i] == xs@[i].0 && r.1@[i] == xs@[i].1,
{
    let ghost s = xs@;
    let ghost n = s.len() as int;
    assert(n == xs.len());
    let mut rest = reverse(xs);
    proof {
        lemma_rest_rev_start(s);
    }
    let mut firsts: Vec<A> = Vec::new();
    let mut seconds: Vec<B> = Vec::new();
    while rest.len() > 0
        invariant
            s == xs@,
            n == s.len(),
            firsts.len() == seconds.len(),
            firsts.len() <= n,
            rest@ == rest_rev(s, firsts.len() as int),
            rest.len() == n - firsts.len(),
            forall|j: int| 0 <= j < firsts.len() ==> #[trigger] firsts@[j] == s[j].0 && seconds@[j] == s[j].1,
        decreases rest.len(),
    {
        proof {
            lemma_rest_rev_pop(s, firsts.len() as int);
        }
        let (a, b) = rest.pop().unwrap();
        firsts.push(a);
        seconds.push(b);
    }
    (firsts, seconds)
}

/// The values inside the `Some`s of `os`, in order.
pub open spec fn somes<B>(os: Seq<Option<B>>) -> Seq<B>
    decreases os.len(),
{
    if os.len() == 0 {
        seq![]
    } else {
        match os.last() {
            Some(b) => somes(os.drop_last()).push(b),
            None => somes(os.drop_last()),
        }
    }
}

/// Returns the values that `f` gives inside `Some`, in order.
pub fn filter_map<A, B, F: Fn(A) -> Option<B>>(f: F, xs: Vec<A>) -> (r: Vec<B>)
    requires
        forall|a: A| f.requires((a,)),
    ensures
        exists|outs: Seq<Option<B>>|
            {
                &&& outs.len() == xs.len()
                &&& forall|i: int| 0 <= i < xs.len() ==> call_ensures(f, (xs@[i],), #[trigger] outs[i])
                &&& r@ == somes(outs)
            },
{
    let ghost s = xs@;
    let ghost n = s.len() as int;
    assert(n == xs.len());
    let mut rest = reverse(xs);
    proof {
        lemma_rest_rev_start(s);
    }
    let mut out: Vec<B> = Vec::new();
    let ghost mut outs: Seq<Option<B>> = seq![];
    while rest.len() > 0
        invariant
            forall|a: A| f.requires((a,)),
            s == xs@,
            n == s.len(),
            outs.len() <= n,
            rest@ == rest_rev(s, outs.len() as int),
            rest.len() == n - outs.len(),
            forall|j: int| 0 <= j < outs.len() ==> call_ensures(f, (s[j],), #[trigger] outs[j]),
            out@ == somes(outs),
        decreases rest.len(),
    {
        proof {
            lemma_rest_rev_pop(s, outs.len() as int);
        }
        let x = rest.pop().unwrap();
        let o = f(x);
        proof {
            let prev = outs;
            outs = outs.push(o);
            assert(outs.drop_last() =~= prev);
        }
        match o {
            Some(b) => out.push(b),
            None => {},
        }
    }
    out
}

/// Returns the first element on which `f` holds.
pub fn find<A, F: Fn(&A) -> bool>(f: F, xs: Vec<A>) -> (r: Option<A>)
    requires
        forall|a: &A| f.requires((a,)),
    ensures
        exists|k: int|
            first_where(f, xs@, true, k) && r == if k < xs.len() {
                Some(xs@[k])
            } else {
                None
            },
{
    let k = scan_until(&f, &xs, true);
    let mut xs = xs;
    if k < xs.len() {
        Some(xs.swap_remove(k))
    } else {
        None
    }
}

/// Returns the index of the first element on which `f` holds.
pub fn find_index<A, F: Fn(&A) -> bool>(f: F, xs: Vec<A>) -> (r: Option<usize>)
    requires
        forall|a: &A| f.requires((a,)),
    ensures
        exists|k: int|
            first_where(f, xs@, true, k) && r == if k < xs.len() {
                Some(k as usize)
            } else {
                None
            },
{
    let k = scan_until(&f, &xs, true);
    if k < xs.len() {
        Some(k)
    } else {
        None
    }
}

/// Returns the index of the first occurrence of `x`.
pub fn elem_index<A: PartialEq>(x: A, xs: Vec<A>) -> (r: Option<usize>)
    requires
        obeys_concrete_eq::<A>(),
    ensures
        match r {
            Some(k) => k < xs.len() && xs@[k as int] == x && forall|j: int| 0 <= j < k ==> xs@[j] != x,
            None => !xs@.contains(x),
        },
{
    let mut i: usize = 0;
    while i < xs.len()
        invariant
            obeys_concrete_eq::<A>(),
            i <= xs.len(),
            forall|j: int| 0 <= j < i ==> xs@[j] != x,
        decreases xs.len() - i,
    {
        if equals(&xs[i], &x) {
            return Some(i);
        }
        i = i + 1;
    }
    None
}

/// The indices, in increasing order, at which `xs` holds `x`.
pub open spec fn indices_of<A>(xs: Seq<A>, x: A) -> Seq<usize>
    decreases xs.len(),
{
    if xs.len() == 0 {
        seq![]
    } else if xs.last() == x {
        indices_of(xs.drop_last(), x).push((xs.len() - 1) as usize)
    } else {
        indices_of(xs.drop_last(), x)
    }
}

/// Returns the indices of all occurrences of `x`, in increasing order.
pub fn elem_indecies<A: PartialEq>(x: A, xs: Vec<A>) -> (r: Vec<usize>)
    requires
        obeys_concrete_eq::<A>(),
    ensures
        r@ == indices_of(xs@, x),
{
    let mut out: Vec<usize> = Vec::new();
    let mut i: usize = 0;
    proof {
        assert(xs@.take(0) =~= Seq::<A>::empty());
    }
    while i < xs.len()
        invariant
            obeys_concrete_eq::<A>(),
            i <= xs.len(),
            out@ == indices_of(xs@.take(i as int), x),
        decreases xs.len() - i,
    {
        proof {
            assert(xs@.take(i + 1).drop_last() =~= xs@.take(i as int));
        }
        if equals(&xs[i], &x) {
            out.push(i);
        }
        i = i + 1;
    }
    proof {
        assert(xs@.take(xs.len() as int) =~= xs@);
    }
    out
}

/// Returns the indices of the elements on which `f` holds, in increasing
/// order.
pub fn find_indecies<A, F: Fn(&A) -> bool>(f: F, xs: Vec<A>) -> (r: Vec<usize>)
    requires
        forall|a: &A| f.requires((a,)),
    ensures
        exists|keep: Seq<bool>|
            {
                &&& keep.len() == xs.len()
                &&& forall|i: int| 0 <= i < xs.len() ==> call_ensures(f, (&xs@[i],), #[trigger] keep[i])
                &&& r@ == kept(Seq::new(xs.len() as nat, |i: int| i as usize), keep)
            },
{
    let ghost idx = Seq::new(xs.len() as nat, |i: int| i as usize);
    let mut out: Vec<usize> = Vec::new();
    let ghost mut keep: Seq<bool> = seq![];
    let mut i: usize = 0;
    proof {
        assert(idx.take(0) =~= Seq::<usize>::empty());
    }
    while i < xs.len()
        invariant
            forall|a: &A| f.requires((a,)),
            idx == Seq::new(xs.len() as nat, |i: int| i as usize),
            i <= xs.len(),
            keep.len() == i,
            forall|j: int| 0 <= j < i ==> call_ensures(f, (&xs@[j],), #[trigger] keep[j]),
            out@ == kept(idx.take(i as int), keep),
        decreases xs.len() - i,
    {
        let b = f(&xs[i]);
        proof {
            let prev = keep;
            keep = keep.push(b);
            assert(keep.drop_last() =~= prev);
            assert(idx.take(i + 1).drop_last() =~= idx.take(i as int));
            assert(idx.take(i + 1).last() == i);
        }
        if b {
            out.push(i);
        }
        i = i + 1;
    }
    proof {
        assert(idx.take(xs.len() as int) =~= idx);
    }
    out
}

/// Returns whether `prefix` is a prefix of `xs`.
pub fn is_prefix_of<A: PartialEq>(prefix: Vec<A>, xs: Vec<A>) -> (r: bool)
    requires
        obeys_concrete_eq::<A>(),
    ensures
        r == (prefix.len() <= xs.len() && prefix@ == xs@.take(prefix.len() as int)),
{
    if prefix.len() > xs.len() {
        return false;
    }
    let mut i: usize = 0;
    while i < prefix.len()
        invariant
            obeys_concrete_eq::<A>(),
            prefix.len() <= xs.len(),
            i <= prefix.len(),
            forall|j: int| 0 <= j < i ==> prefix@[j] == xs@[j],
        decreases prefix.len() - i,
    {
        if !equals(&prefix[i], &xs[i]) {
            proof {
                assert(prefix@[i as int] != xs@.take(prefix.len() as int)[i as int]);
            }
            return false;
        }
        i = i + 1;
    }
    assert(prefix@ =~= xs@.take(prefix.len() as int));
    true
}

/// Returns whether `suffix` is a suffix of `xs`.
pub fn is_suffix_of<A: PartialEq>(suffix: Vec<A>, xs: Vec<A>) -> (r: bool)
    requires
        obeys_concrete_eq::<A>(),
    ensures
        r == (suffix.len() <= xs.len() && suffix@ == xs@.skip(xs.len() - suffix.len())),
{
    if suffix.len() > xs.len() {
        return false;
    }
    let off = xs.len() - suffix.len();
    let mut i: usize = 0;
    while i < suffix.len()
        invariant
            obeys_concrete_eq::<A>(),
            off == xs.len() - suffix.len(),
            i <= suffix.len(),
            forall|j: int| 0 <= j < i ==> suffix@[j] == xs@[off + j],
        decreases suffix.len() - i,
    {
        if !equals(&suffix[i], &xs[off + i]) {
            proof {
                assert(suffix@[i as int] != xs@.skip(off as int)[i as int]);
            }
            return false;
        }
        i = i + 1;
    }
    assert(suffix@ =~= xs@.skip(off as int));
    true
}

/// Returns the largest element, if any.
pub fn maximum(xs: Vec<i64>) -> (r: Option<i64>)
    ensures
        r is None <==> xs.len() == 0,
        r is Some ==> xs@.contains(r->0) && forall|i: int| 0 <= i < xs.len() ==> xs@[i] <= r->0,
{
    if xs.len() == 0 {
        return None;
    }
    let mut best = xs[0];
    let mut i: usize = 1;
    while i < xs.len()
        invariant
            1 <= i <= xs.len(),
            xs@.contains(best),
            forall|j: int| 0 <= j < i ==> xs@[j] <= best,
        decreases xs.len() - i,
    {
        if xs[i] > best {
            best = xs[i];
        }
        i = i + 1;
    }
    Some(best)
}

/// Returns the smallest element, if any.
pub fn minimum(xs: Vec<i64>) -> (r: Option<i64>)
    ensures
        r is None <==> xs.len() == 0,
        r is Some ==> xs@.contains(r->0) && forall|i: int| 0 <= i < xs.len() ==> r->0 <= xs@[i],
{
    if xs.len() == 0 {
        return None;
    }
    let mut best = xs[0];
    let mut i: usize = 1;
    while i < xs.len()
        invariant
            1 <= i <= xs.len(),
            xs@.contains(best),
            forall|j: int| 0 <= j < i ==> best <= xs@[j],
        decreases xs.len() - i,
    {
        if xs[i] < best {
            best = xs[i];
        }
        i = i + 1;
    }
    Some(best)
}

/// The sum of the elements of `s`.
pub open spec fn seq_sum(s: Seq<i64>) -> int
    decreases s.len(),
{
    if s.len() == 0 {
        0
    } else {
        seq_sum(s.drop_last()) + s.last()
    }
}

/// Returns the sum of the elements (zero for none). The sum must fit in
/// `i64`; partial sums may leave it.
pub fn sum(xs: Vec<i64>) -> (r: i64)
    requires
        i64::MIN <= seq_sum(xs@) <= i64::MAX,
    ensures
        r == seq_sum(xs@),
{
    let mut acc: i128 = 0;
    let mut i: usize = 0;
    while i < xs.len()
        invariant
            i <= xs.len(),
            acc == seq_sum(xs@.take(i as int)),
            -(i as int) * 0x8000_0000_0000_0000 <= acc <= (i as int) * 0x8000_0000_0000_0000,
        decreases xs.len() - i,
    {
        proof {
            assert(xs@.take(i + 1).drop_last() =~= xs@.take(i as int));
        }
        acc = acc + xs[i] as i128;
        i = i + 1;
    }
    proof {
        assert(xs@.take(xs.len() as int) =~= xs@);
    }
    acc as i64
}

/// The elements of `s` never decrease.
pub open spec fn sorted(s: Seq<i64>) -> bool {
    forall|i: int, j: int| 0 <= i <= j < s.len() ==> s[i] <= s[j]
}

/// The index of a smallest element of `xs`, the first among equals.
fn index_of_min(xs: &Vec<i64>) -> (m: usize)
    requires
        xs.len() > 0,
    ensures
        m < xs.len(),
        forall|j: int| 0 <= j < xs.len() ==> xs@[m as int] <= xs@[j],
        forall|j: int| 0 <= j < m ==> xs@[m as int] < xs@[j],
{
    let mut m: usize = 0;
    let mut i: usize = 1;
    while i < xs.len()
        invariant
            1 <= i <= xs.len(),
            m < i,
            forall|j: int| 0 <= j < i ==> xs@[m as int] <= xs@[j],
            forall|j: int| 0 <= j < m ==> xs@[m as int] < xs@[j],
        decreases xs.len() - i,
    {
        if xs[i] < xs[m] {
            m = i;
        }
        i = i + 1;
    }
    m
}

/// Returns the elements in ascending order.
pub fn sort(xs: Vec<i64>) -> (r: Vec<i64>)
    ensures
        sorted(r@),
        r@.to_multiset() == xs@.to_multiset(),
{
    broadcast use vstd::seq_lib::group_to_multiset_ensures;

    let ghost s = xs@;
    let mut rest = xs;
    let mut out: Vec<i64> = Vec::new();
    proof {
        assert(out@.to_multiset().add(rest@.to_multiset()) =~= s.to_multiset());
    }
    while rest.len() > 0
        invariant
            sorted(out@),
            out@.to_multiset().add(rest@.to_multiset()) == s.to_multiset(),
            forall|i: int, j: int| 0 <= i < out.len() && 0 <= j < rest.len() ==> out@[i] <= rest@[j],
        decreases rest.len(),
    {
        let m = index_of_min(&rest);
        let ghost before = rest@;
        let ghost done = out@;
        let x = rest.remove(m);
        out.push(x);
        proof {
            before.to_multiset_ensures();
            done.to_multiset_ensures();
            assert(before.remove(m as int) == rest@);
            assert(before[m as int] == x);
            assert(before.contains(x));
            assert(before.to_multiset().count(x) > 0);
            assert(before.remove(m as int).to_multiset() =~= before.to_multiset().remove(x));
            assert(out@ == done.push(x));
            assert(done.push(x).to_multiset() =~= done.to_multiset().insert(x));
            assert(out@.to_multiset().add(rest@.to_multiset()) =~= done.to_multiset().add(
                before.to_multiset(),
            ));
            assert forall|i: int, j: int| 0 <= i < out.len() && 0 <= j < rest.len() implies out@[i]
                <= rest@[j] by {
                if j < m {
                    assert(rest@[j] == before[j]);
                } else {
                    assert(rest@[j] == before[j + 1]);
                }
            }
        }
    }
    proof {
        assert(rest@.to_multiset() =~= Multiset::<i64>::empty());
        assert(out@.to_multiset().add(rest@.to_multiset()) =~= out@.to_multiset());
    }
    out
}

/// Position `a` comes before position `b` when ordered by key, ties broken
/// by position.
pub open spec fn key_before(keys: Seq<i64>, a: int, b: int) -> bool {
    keys[a] < keys[b] || (keys[a] == keys[b] && a < b)
}

/// Returns the elements ordered by the key that `f` gives for each, in
/// ascending order; elements with equal keys keep their relative order.
pub fn sort_on<A, F: Fn(&A) -> i64>(f: F, xs: Vec<A>) -> (r: Vec<A>)
    requires
        forall|a: &A| f.requires((a,)),
    ensures
        r@.to_multiset() == xs@.to_multiset(),
        exists|keys: Seq<i64>, from: Seq<int>|
            {
                &&& keys.len() == xs.len()
                &&& forall|i: int| 0 <= i < xs.len() ==> call_ensures(f, (&xs@[i],), #[trigger] keys[i])
                &&& from.len() == r.len()
                &&& forall|i: int|
                    0 <= i < r.len() ==> 0 <= #[trigger] from[i] < xs.len() && r@[i] == xs@[from[i]]
                &&& forall|i: int, j: int|
                    0 <= i < j < r.len() ==> key_before(keys, #[trigger] from[i], #[trigger] from[j])
            },
{
    broadcast use vstd::seq_lib::group_to_multiset_ensures;

    let ghost s = xs@;
    let mut keys: Vec<i64> = Vec::new();
    let mut i: usize = 0;
    while i < xs.len()
        invariant
            forall|a: &A| f.requires((a,)),
            s == xs@,
            i <= xs.len(),
            keys.len() == i,
            forall|j: int| 0 <= j < i ==> call_ensures(f, (&xs@[j],), #[trigger] keys@[j]),
        decreases xs.len() - i,
    {
        let k = f(&xs[i]);
        keys.push(k);
        i = i + 1;
    }
    let ghost ks = keys@;
    let ghost n = s.len() as int;
    let mut rest = xs;
    let mut out: Vec<A> = Vec::new();
    let ghost mut rest_from: Seq<int> = Seq::new(n as nat, |j: int| j);
    let ghost mut out_from: Seq<int> = seq![];
    proof {
        assert(out@.to_multiset().add(rest@.to_multiset()) =~= s.to_multiset());
    }
    while rest.len() > 0
        invariant
            ks.len() == n,
            s.len() == n,
            forall|j: int| 0 <= j < n ==> call_ensures(f, (&s[j],), #[trigger] ks[j]),
            rest.len() == keys.len(),
            rest_from.len() == rest.len(),
            forall|j: int|
                0 <= j < rest.len() ==> 0 <= #[trigger] rest_from[j] < n && rest@[j] == s[rest_from[j]]
                    && keys@[j] == ks[rest_from[j]],
            forall|a: int, b: int|
                0 <= a < b < rest.len() ==> #[trigger] rest_from[a] < #[trigger] rest_from[b],
            out_from.len() == out.len(),
            forall|j: int|
                0 <= j < out.len() ==> 0 <= #[trigger] out_from[j] < n && out@[j] == s[out_from[j]],
            forall|a: int, b: int|
                0 <= a < b < out.len() ==> key_before(ks, #[trigger] out_from[a], #[trigger] out_from[b]),
            forall|a: int, b: int|
                0 <= a < out.len() && 0 <= b < rest.len() ==> key_before(
                    ks,
                    #[trigger] out_from[a],
                    #[trigger] rest_from[b],
                ),
            out@.to_multiset().add(rest@.to_multiset()) == s.to_multiset(),
        decreases rest.len(),
    {
        let m = index_of_min(&keys);
        let ghost before = rest@;
        let ghost before_keys = keys@;
        let ghost before_from = rest_from;
        let ghost done = out@;
        let ghost done_from = out_from;
        let x = rest.remove(m);
        let _ = keys.remove(m);
        out.push(x);
        proof {
            before.to_multiset_ensures();
            done.to_multiset_ensures();
            assert(before[m as int] == x);
            assert(before.contains(x));
            assert(before.to_multiset().count(x) > 0);
            assert(before.remove(m as int).to_multiset() =~= before.to_multiset().remove(x));
            assert(out@ == done.push(x));
            assert(done.push(x).to_multiset() =~= done.to_multiset().insert(x));
            assert(out@.to_multiset().add(rest@.to_multiset()) =~= done.to_multiset().add(
                before.to_multiset(),
            ));
            let chosen = before_from[m as int];
            rest_from = before_from.remove(m as int);
            out_from = done_from.push(chosen);
            assert forall|j: int|
                0 <= j < rest.len() implies 0 <= #[trigger] rest_from[j] < n && rest@[j] == s[rest_from[j]]
                && keys@[j] == ks[rest_from[j]] by {
                if j < m {
                    assert(rest@[j] == before[j] && keys@[j] == before_keys[j]);
                } else {
                    assert(rest@[j] == before[j + 1] && keys@[j] == before_keys[j + 1]);
                }
            }
            assert forall|a: int, b: int| 0 <= a < b < rest.len() implies #[trigger] rest_from[a]
                < #[trigger] rest_from[b] by {
                let a0 = if a < m { a } else { a + 1 };
                let b0 = if b < m { b } else { b + 1 };
                assert(rest_from[a] == before_from[a0] && rest_from[b] == before_from[b0]);
            }
            assert forall|j: int| 0 <= j < out.len() implies 0 <= #[trigger] out_from[j] < n && out@[j]
                == s[out_from[j]] by {
                if j < done.len() {
                    assert(out_from[j] == done_from[j]);
                }
            }
            assert forall|b: int| 0 <= b < rest.len() implies key_before(ks, chosen, #[trigger] rest_from[b]) by {
                let b0 = if b < m { b } else { b + 1 };
                assert(rest_from[b] == before_from[b0]);
                assert(before_keys[m as int] <= before_keys[b0]);
                if b0 < m {
                    assert(before_keys[m as int] < before_keys[b0]);
                } else {
                    assert(before_from[m as int] < before_from[b0]);
                }
            }
            assert forall|a: int, b: int| 0 <= a < b < out.len() implies key_before(
                ks,
                #[trigger] out_from[a],
                #[trigger] out_from[b],
            ) by {
                assert(out_from[a] == done_from[a]);
                if b < done.len() {
                    assert(out_from[b] == done_from[b]);
                } else {
                    assert(out_from[b] == chosen);
                    assert(key_before(ks, done_from[a], before_from[m as int]));
                }
            }
            assert forall|a: int, b: int| 0 <= a < out.len() && 0 <= b < rest.len() implies key_before(
                ks,
                #[trigger] out_from[a],
                #[trigger] rest_from[b],
            ) by {
                let b0 = if b < m { b } else { b + 1 };
                assert(rest_from[b] == before_from[b0]);
                if a < done.len() {
                    assert(out_from[a] == done_from[a]);
                    assert(key_before(ks, done_from[a], before_from[b0]));
                } else {
                    assert(key_before(ks, chosen, rest_from[b]));
                }
            }
        }
    }
    proof {
        assert(rest@.to_multiset() =~= Multiset::<A>::empty());
        assert(out@.to_multiset().add(rest@.to_multiset()) =~= out@.to_multiset());
        assert(ks.len() == s.len());
    }
    out
}

/// An action that writes a string to standard output.
#[derive(Clone)]
pub struct PutStr(pub String);

/// An action that writes a string and a line break to standard output.
#[derive(Clone)]
pub struct PutStrLn(pub String);

/// An action that reads one line from standard input, without its line
/// break.
#[allow(non_camel_case_types)]
#[derive(Clone)]
pub struct get_line;

/// An action whose result is that of `io` passed through `f`.
#[derive(Clone)]
pub struct IoMap<I, F> {
    pub io: I,
    pub f: F,
}

/// An action that performs nothing and yields `io`.
#[derive(Clone)]
pub struct IoPure<A> {
    pub io: A,
}

/// An action that performs `io`, then the action that `f` makes of its
/// result.
#[derive(Clone)]
pub struct IoBind<A, F> {
    pub io: A,
    pub f: F,
}

/// Returns the action that writes `s`.
pub fn put_str(s: String) -> (r: PutStr)
    ensures
        r.0@ == s@,
{
    PutStr(s)
}

/// Returns the action that writes `s` and a line break.
pub fn put_str_ln(s: String) -> (r: PutStrLn)
    ensures
        r.0@ == s@,
{
    PutStrLn(s)
}

} // verus!
