//! Integer square roots, computed without leaving the machine integers.

use vstd::prelude::*;

verus! {

/// `r` is the largest integer whose square does not exceed `n`.
pub open spec fn is_integer_sqrt(n: int, r: int) -> bool {
    0 <= r && r * r <= n < (r + 1) * (r + 1)
}

/// Comparing `m` with the quotient `n / m` compares `m * m` with `n`.
pub proof fn lemma_square_le_by_division(m: int, n: int)
    by (nonlinear_arith)
    requires
        0 < m,
        0 <= n,
    ensures
        (m <= n / m) == (m * m <= n),
{
}

/// The square root of a number stays well below the number itself.
pub proof fn lemma_integer_sqrt_bound(n: int, r: int)
    by (nonlinear_arith)
    requires
        is_integer_sqrt(n, r),
    ensures
        r <= n,
        2 <= n ==> r + 1 <= n,
        3 <= n ==> r + 2 <= n,
{
}

/// The integer square root of `n`, found by bisection.
pub fn integer_sqrt(n: usize) -> (r: usize)
    ensures
        is_integer_sqrt(n as int, r as int),
{
    let mut lo: usize = 0;
    let mut hi: usize = n;
    assert(0 * 0 <= n < (n + 1) * (n + 1)) by (nonlinear_arith);
    while lo < hi
        invariant
            lo <= hi <= n,
            lo * lo <= n < (hi + 1) * (hi + 1),
        decreases hi - lo,
    {
        let mid: usize = lo + (hi - lo) / 2 + 1;
        proof {
            lemma_square_le_by_division(mid as int, n as int);
        }
        if mid <= n / mid {
            lo = mid;
        } else {
            hi = mid - 1;
        }
    }
    lo
}

} // verus!
