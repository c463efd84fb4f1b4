use vstd::prelude::*;

verus! {

/// The Fibonacci numbers: 0, 1, 1, 2, 3, 5, ...
pub open spec fn fib_of(n: nat) -> nat
    decreases n,
{
    if n == 0 {
        0
    } else if n == 1 {
        1
    } else {
        fib_of((n - 1) as nat) + fib_of((n - 2) as nat)
    }
}

proof fn lemma_fib_grows(n: nat)
    ensures
        n >= 1 ==> fib_of((n - 1) as nat) <= fib_of(n),
    decreases n,
{
    if n >= 2 {
        lemma_fib_grows((n - 1) as nat);
    }
}

/// Returns the `n`th Fibonacci number, which must fit in `u32` (true up to
/// `n == 47`).
pub fn fib(n: u32) -> (r: u32)
    requires
        fib_of(n as nat) <= u32::MAX,
    ensures
        r == fib_of(n as nat),
    decreases n,
{
    match n {
        0 => 0,
        1 => 1,
        _ => {
            proof {
                lemma_fib_grows(n as nat);
                lemma_fib_grows((n - 1) as nat);
            }
            fib(n - 1) + fib(n - 2)
        },
    }
}

} // verus!
