//! Fibonacci numbers, computed iteratively and by memoized recursion.

use vstd::prelude::*;

verus! {

/// The Fibonacci sequence as a mathematical function:
/// `fib(0) == 0`, `fib(1) == 1`, and every later entry is the sum of the two
/// before it.
pub open spec fn fib(n: nat) -> nat
    decreases n,
{
    if n == 0 {
        0
    } else if n == 1 {
        1
    } else {
        fib((n - 2) as nat) + fib((n - 1) as nat)
    }
}

/// The sequence never decreases.
pub proof fn lemma_fib_monotonic(i: nat, j: nat)
    requires
        i <= j,
    ensures
        fib(i) <= fib(j),
    decreases j - i,
{
    if i < j {
        lemma_fib_monotonic(i, (j - 1) as nat);
    }
}

/// Returns the `n`-th Fibonacci number, computed with a loop.
pub fn fib_loop(n: usize) -> (r: usize)
    requires
        fib(n as nat) <= usize::MAX,
    ensures
        r == fib(n as nat),
{
    if n == 0 {
        return 0;
    }
    let mut a: usize = 0;
    let mut b: usize = 1;
    let mut k: usize = 1;
    while k < n
        invariant
            1 <= k <= n,
            a == fib((k - 1) as nat),
            b == fib(k as nat),
            fib(n as nat) <= usize::MAX,
        decreases n - k,
    {
        proof {
            lemma_fib_monotonic((k + 1) as nat, n as nat);
        }
        let c = a + b;
        a = b;
        b = c;
        k = k + 1;
    }
    b
}

/// Entries of the memo table are either still unset (zero) or hold the
/// Fibonacci number of their index.
spec fn memo_ok(s: Seq<usize>) -> bool {
    forall|i: int| 0 <= i < s.len() ==> s[i] == 0 || s[i] == fib(i as nat)
}

/// Recursive helper over a memo table of size at least `n + 1`.
fn fib_recur_inner(arr: &mut Vec<usize>, n: usize) -> (r: usize)
    requires
        n < old(arr).len(),
        memo_ok(old(arr)@),
        fib(n as nat) <= usize::MAX,
    ensures
        r == fib(n as nat),
        final(arr).len() == old(arr).len(),
        memo_ok(final(arr)@),
    decreases n,
{
    if n <= 1 {
        n
    } else if arr[n] > 0 {
        arr[n]
    } else {
        proof {
            lemma_fib_monotonic((n - 1) as nat, n as nat);
        }
        let x = fib_recur_inner(arr, n - 1);
        let y = fib_recur_inner(arr, n - 2);
        let v = x + y;
        arr.set(n, v);
        v
    }
}

/// Returns the `n`-th Fibonacci number, computed by recursion over a memo
/// table.
pub fn fib_recur(n: usize) -> (r: usize)
    requires
        n < usize::MAX,
        fib(n as nat) <= usize::MAX,
    ensures
        r == fib(n as nat),
{
    let mut arr: Vec<usize> = Vec::new();
    while arr.len() < n + 1
        invariant
            n < usize::MAX,
            arr.len() <= n + 1,
            memo_ok(arr@),
        decreases n + 1 - arr.len(),
    {
        arr.push(0);
    }
    fib_recur_inner(&mut arr, n)
}

} // verus!
