//! Fibonacci numbers, recursively and iteratively.
use vstd::arithmetic::power2::{
    lemma2_to64_rest, lemma_pow2_pos, lemma_pow2_strictly_increases, lemma_pow2_unfold, pow2,
};
use vstd::prelude::*;

verus! {

/// The Fibonacci numbers: 0, 1, 1, 2, 3, 5, ...
pub open spec fn fibonacci(n: nat) -> nat
    decreases n,
{
    if n < 2 {
        n
    } else {
        fibonacci((n - 1) as nat) + fibonacci((n - 2) as nat)
    }
}

/// The Fibonacci numbers never decrease.
pub proof fn lemma_fibonacci_monotone(m: nat, n: nat)
    requires
        m <= n,
    ensures
        fibonacci(m) <= fibonacci(n),
    decreases n - m,
{
    if m < n {
        lemma_fibonacci_monotone(m, (n - 1) as nat);
        if n >= 2 {
            assert(fibonacci(n) == fibonacci((n - 1) as nat) + fibonacci((n - 2) as nat));
        }
    }
}

/// Each Fibonacci number is at most two to the power of its index.
pub proof fn lemma_fibonacci_pow2_bound(n: nat)
    ensures
        fibonacci(n) <= pow2(n),
    decreases n,
{
    if n >= 2 {
        lemma_fibonacci_pow2_bound((n - 1) as nat);
        lemma_fibonacci_pow2_bound((n - 2) as nat);
        lemma_pow2_unfold(n);
        lemma_pow2_unfold((n - 1) as nat);
    } else if n == 1 {
        lemma_pow2_unfold(1);
        lemma_pow2_pos(0);
    } else {
        lemma_pow2_pos(0);
    }
}

/// The `n`th Fibonacci number, by plain double recursion. For `n < 2` it
/// returns `n` itself, negative `n` included. The result must fit in an `i64`
/// (it does up to `n == 92`).
pub fn fibonacci_recursive(n: i64) -> (r: i64)
    requires
        n < 2 || fibonacci(n as nat) <= i64::MAX,
    ensures
        r == (if n < 2 { n as int } else { fibonacci(n as nat) as int }),
    decreases n,
{
    if n < 2 {
        return n;
    }
    proof {
        lemma_fibonacci_monotone((n - 1) as nat, n as nat);
        lemma_fibonacci_monotone((n - 2) as nat, n as nat);
    }
    fibonacci_recursive(n - 1) + fibonacci_recursive(n - 2)
}

/// The `n`th Fibonacci number, by iteration; for `n < 1` it returns 1. The
/// result must fit in an `i64` (it does up to `n == 92`).
pub fn fibonacci_iterative(n: i64) -> (r: i64)
    requires
        n < 2 || fibonacci(n as nat) <= i64::MAX,
    ensures
        r == (if n < 1 { 1 } else { fibonacci(n as nat) as int }),
{
    let mut first_number: i64 = 0;
    let mut second_number: i64 = 0;
    let mut current_number: i64 = 1;
    let mut i: i64 = 1;
    while i < n
        invariant
            1 <= i,
            n >= 1 ==> i <= n,
            n < 1 ==> i == 1,
            n >= 2 ==> fibonacci(n as nat) <= i64::MAX,
            current_number == fibonacci(i as nat),
            second_number == fibonacci((i - 1) as nat),
        decreases n - i,
    {
        proof {
            lemma_fibonacci_monotone((i + 1) as nat, n as nat);
        }
        first_number = second_number;
        second_number = current_number;
        current_number = first_number + second_number;
        i = i + 1;
    }
    assert(fibonacci(1) == 1);
    current_number
}

/// The Fibonacci number after the `n`th (1, 1, 2, 3, 5, ... for `n` = 0, 1,
/// 2, ...), or `None` for `n` above 60.
pub fn fib(n: u64) -> (r: Option<u64>)
    ensures
        n > 60 ==> r == None::<u64>,
        n <= 60 ==> r == Some(fibonacci((n + 1) as nat) as u64),
{
    if n > 60 {
        return None;
    }
    proof {
        lemma2_to64_rest();
    }
    let mut next_val: u64 = 1;
    let mut curr_val: u64 = 0;
    let mut i: u64 = 0;
    while i < n
        invariant
            i <= n <= 60,
            pow2(62) == 0x4000000000000000,
            curr_val == fibonacci(i as nat),
            next_val == fibonacci((i + 1) as nat),
        decreases n - i,
    {
        proof {
            lemma_fibonacci_pow2_bound((i + 2) as nat);
            lemma_pow2_strictly_increases((i + 2) as nat, 62);
        }
        let temp = curr_val + next_val;
        curr_val = next_val;
        next_val = temp;
        i = i + 1;
    }
    Some(next_val)
}

/// `fib(n)` plus 999, or `None` where `fib` gives none.
pub fn using_fib(n: u64) -> (r: Option<u64>)
    ensures
        n > 60 ==> r == None::<u64>,
        n <= 60 ==> r == Some((fibonacci((n + 1) as nat) + 999) as u64),
{
    proof {
        if n <= 60 {
            lemma2_to64_rest();
            lemma_fibonacci_pow2_bound((n + 1) as nat);
            lemma_pow2_strictly_increases((n + 1) as nat, 62);
        }
    }
    match fib(n) {
        Some(res) => Some(res + 999),
        None => None,
    }
}

} // verus!
