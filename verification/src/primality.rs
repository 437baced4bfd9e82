//! What it means for an integer to be prime, and the facts about divisors
//! that the sieve rests on.

use vstd::prelude::*;
use vstd::arithmetic::div_mod::{lemma_fundamental_div_mod, lemma_mod_multiples_basic};

verus! {

/// `d` divides `k` without remainder.
pub open spec fn divides(d: int, k: int) -> bool {
    k % d == 0
}

/// No integer in `[2, limit)` divides `k`.
pub open spec fn no_divisor_below(k: int, limit: int) -> bool {
    forall|d: int| 2 <= d < limit ==> !#[trigger] divides(d, k)
}

/// `k` is a prime number: at least 2, and divided by no integer strictly
/// between 1 and itself.
pub open spec fn is_prime_number(k: int) -> bool {
    2 <= k && no_divisor_below(k, k)
}

/// `k` is still a candidate once the multiples of every integer in `[2, p)`
/// have been struck: it is at least 2 and no proper divisor of it lies below
/// `p`.
pub open spec fn unstruck(k: int, p: int) -> bool {
    2 <= k && no_divisor_below(k, if p < k { p } else { k })
}

/// A multiple of `d` is `d` times its quotient.
pub proof fn lemma_divides_product(d: int, k: int)
    requires
        d > 0,
        divides(d, k),
    ensures
        k == d * (k / d),
{
    lemma_fundamental_div_mod(k, d);
}

/// Every product `d * q` is divided by `d`.
pub proof fn lemma_product_divides(d: int, q: int)
    requires
        d > 0,
    ensures
        divides(d, d * q),
{
    lemma_mod_multiples_basic(q, d);
    assert(q * d == d * q) by (nonlinear_arith);
}

/// Divisibility is transitive.
pub proof fn lemma_divides_transitive(a: int, b: int, c: int)
    requires
        a > 0,
        b > 0,
        divides(a, b),
        divides(b, c),
    ensures
        divides(a, c),
{
    lemma_divides_product(a, b);
    lemma_divides_product(b, c);
    let x = b / a;
    let y = c / b;
    assert(c == a * (x * y)) by (nonlinear_arith)
        requires
            b == a * x,
            c == b * y,
    ;
    lemma_product_divides(a, x * y);
}

/// The multiple of `p` that follows `i` is `i + p`: it is a multiple, and
/// nothing strictly between the two is.
pub proof fn lemma_next_multiple(p: int, i: int, k: int)
    requires
        p > 0,
        divides(p, i),
    ensures
        divides(p, i + p),
        i < k < i + p ==> !divides(p, k),
{
    lemma_divides_product(p, i);
    let a = i / p;
    assert(i + p == p * (a + 1)) by (nonlinear_arith)
        requires
            i == p * a,
    ;
    lemma_product_divides(p, a + 1);
    if i < k < i + p && divides(p, k) {
        lemma_divides_product(p, k);
        let b = k / p;
        assert(false) by (nonlinear_arith)
            requires
                i == p * a,
                k == p * b,
                i < k < i + p,
                p > 0,
        ;
    }
}

/// A proper divisor `d` of `k` comes with a cofactor `k / d` that is a proper
/// divisor too.
pub proof fn lemma_cofactor(d: int, k: int)
    requires
        2 <= d < k,
        divides(d, k),
    ensures
        2 <= k / d < k,
        divides(k / d, k),
        (k / d) * d == k,
{
    lemma_divides_product(d, k);
    let e = k / d;
    assert(2 <= e < k && e * d == k) by (nonlinear_arith)
        requires
            k == d * e,
            2 <= d < k,
    ;
    lemma_product_divides(e, d);
}

/// Walking one candidate further strikes exactly its proper multiples.
pub proof fn lemma_unstruck_step(k: int, p: int)
    requires
        2 <= p,
    ensures
        unstruck(k, p + 1) == (unstruck(k, p) && !(p < k && divides(p, k))),
{
    if unstruck(k, p) && !(p < k && divides(p, k)) {
        assert(unstruck(k, p + 1));
    }
}

/// The proper multiples of a candidate that was itself struck are struck
/// already: walking past it changes nothing.
pub proof fn lemma_unstruck_step_composite(k: int, p: int)
    requires
        2 <= p,
        !unstruck(p, p),
    ensures
        unstruck(k, p + 1) == unstruck(k, p),
{
    lemma_unstruck_step(k, p);
    if unstruck(k, p) && p < k && divides(p, k) {
        let d = choose|d: int| 2 <= d < p && divides(d, p);
        lemma_divides_transitive(d, p, k);
        assert(false);
    }
}

/// Once the walk has passed the square root of `k`, a candidate that is still
/// standing is prime: of two factors of `k`, one is below the walk.
pub proof fn lemma_unstruck_past_root(k: int, p: int)
    requires
        0 <= p,
        k < p * p,
    ensures
        unstruck(k, p) == is_prime_number(k),
{
    if unstruck(k, p) && !is_prime_number(k) {
        let d = choose|d: int| 2 <= d < k && divides(d, k);
        lemma_cofactor(d, k);
        let e = k / d;
        if d >= p {
            assert(e < p) by (nonlinear_arith)
                requires
                    e * d == k,
                    k < p * p,
                    d >= p,
                    p >= 0,
                    e >= 2,
            ;
            assert(!divides(e, k));
        } else {
            assert(!divides(d, k));
        }
        assert(false);
    }
}

} // verus!
