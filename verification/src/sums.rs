//! Sums of an integer function over an initial segment of the naturals.

use vstd::prelude::*;

verus! {

/// `f(0) + f(1) + ... + f(n - 1)`.
pub open spec fn sum(f: spec_fn(int) -> int, n: nat) -> int
    decreases n,
{
    if n == 0 {
        0
    } else {
        sum(f, (n - 1) as nat) + f(n - 1)
    }
}

/// A sum of `n` terms, each between `-b` and `b`, lies between `-n * b` and `n * b`.
pub proof fn lemma_sum_bounded(f: spec_fn(int) -> int, n: nat, b: nat)
    requires
        forall|i: int| 0 <= i < n ==> -b <= #[trigger] f(i) <= b,
    ensures
        -(n * b) <= sum(f, n) <= n * b,
    decreases n,
{
    if n > 0 {
        lemma_sum_bounded(f, (n - 1) as nat, b);
        assert(n * b == (n - 1) * b + b) by (nonlinear_arith);
    } else {
        assert(n * b == 0) by (nonlinear_arith)
            requires
                n == 0,
        ;
    }
}

/// Two functions that agree below `n` have the same sum.
pub proof fn lemma_sum_agrees(f: spec_fn(int) -> int, g: spec_fn(int) -> int, n: nat)
    requires
        forall|i: int| 0 <= i < n ==> #[trigger] f(i) == g(i),
    ensures
        sum(f, n) == sum(g, n),
    decreases n,
{
    if n > 0 {
        lemma_sum_agrees(f, g, (n - 1) as nat);
    }
}

/// Changing one term changes the sum by the difference of that term.
pub proof fn lemma_sum_replaced(f: spec_fn(int) -> int, g: spec_fn(int) -> int, n: nat, k: int)
    requires
        0 <= k < n,
        forall|i: int| 0 <= i < n && i != k ==> #[trigger] f(i) == g(i),
    ensures
        sum(g, n) == sum(f, n) - f(k) + g(k),
    decreases n,
{
    if n - 1 == k {
        lemma_sum_agrees(f, g, (n - 1) as nat);
    } else {
        lemma_sum_replaced(f, g, (n - 1) as nat, k);
    }
}

} // verus!
