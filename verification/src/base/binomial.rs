//! Binomial coefficients, computed exactly.

use vstd::prelude::*;
use vstd::arithmetic::div_mod::lemma_fundamental_div_mod_converse;
use crate::base::bignat::BigNat;

verus! {

/// The number of ways to choose `k` things out of `n`.
pub open spec fn binomial(n: nat, k: nat) -> nat
    decreases n,
{
    if k == 0 {
        1
    } else if n == 0 {
        0
    } else {
        binomial((n - 1) as nat, (k - 1) as nat) + binomial((n - 1) as nat, k)
    }
}

/// There is no way to choose more than there is.
pub proof fn lemma_binomial_beyond(n: nat, k: nat)
    requires
        k > n,
    ensures
        binomial(n, k) == 0,
    decreases n,
{
    if n > 0 {
        lemma_binomial_beyond((n - 1) as nat, (k - 1) as nat);
        lemma_binomial_beyond((n - 1) as nat, k);
    }
}

/// Choosing within the available number is always possible.
pub proof fn lemma_binomial_positive(n: nat, k: nat)
    requires
        k <= n,
    ensures
        binomial(n, k) >= 1,
    decreases n,
{
    if k > 0 && n > 0 {
        lemma_binomial_positive((n - 1) as nat, (k - 1) as nat);
    }
}

/// The step from one coefficient of a row to the next:
/// `(k + 1) * C(n, k + 1) == (n - k) * C(n, k)`.
pub proof fn lemma_binomial_step(n: nat, k: nat)
    requires
        k <= n,
    ensures
        (k + 1) * binomial(n, k + 1) == (n - k) * binomial(n, k),
    decreases n,
{
    if n == 0 {
        assert(binomial(0, 1) == 0);
        assert((k + 1) * binomial(n, k + 1) == 0) by (nonlinear_arith)
            requires
                binomial(n, k + 1) == 0,
        ;
        assert((n - k) * binomial(n, k) == 0) by (nonlinear_arith)
            requires
                n - k == 0,
        ;
    } else {
        let m = (n - 1) as nat;
        let up = binomial(m, k + 1);
        let mid = binomial(m, k);
        assert(binomial(n, k + 1) == mid + up);
        if k == n {
            lemma_binomial_beyond(m, k);
            lemma_binomial_beyond(m, k + 1);
            assert((k + 1) * binomial(n, k + 1) == 0) by (nonlinear_arith)
                requires
                    binomial(n, k + 1) == 0,
            ;
            assert((n - k) * binomial(n, k) == 0) by (nonlinear_arith)
                requires
                    n - k == 0,
            ;
        } else if k == 0 {
            lemma_binomial_step(m, 0);
            assert(mid == 1);
            assert(binomial(n, 0) == 1);
            assert((k + 1) * (mid + up) == (n - k) * 1) by (nonlinear_arith)
                requires
                    k == 0,
                    mid == 1,
                    (0 + 1) * up == (m - 0) * mid,
                    m == n - 1,
            ;
        } else {
            let low = binomial(m, (k - 1) as nat);
            lemma_binomial_step(m, k);
            lemma_binomial_step(m, (k - 1) as nat);
            assert(binomial(n, k) == low + mid);
            assert((k + 1) * (mid + up) == (n - k) * (low + mid)) by (nonlinear_arith)
                requires
                    (k + 1) * up == (m - k) * mid,
                    k * mid == (m - (k - 1)) * low,
                    m == n - 1,
            ;
        }
    }
}

/// Along the rising half of a row the binomial coefficients do not fall.
pub proof fn lemma_binomial_rising(n: nat, i: nat, k: nat)
    requires
        i <= k,
        2 * k <= n,
    ensures
        binomial(n, i) <= binomial(n, k),
    decreases k - i,
{
    if i < k {
        lemma_binomial_rising(n, i + 1, k);
        lemma_binomial_step(n, i);
        let a = binomial(n, i);
        let b = binomial(n, i + 1);
        assert(a <= b) by (nonlinear_arith)
            requires
                (i + 1) * b == (n - i) * a,
                n - i >= i + 1,
                a >= 0,
                b >= 0,
        ;
    }
}

/// A row of binomial coefficients reads the same from both ends.
pub proof fn lemma_binomial_mirror(n: nat, k: nat)
    requires
        k <= n,
    ensures
        binomial(n, k) == binomial(n, (n - k) as nat),
    decreases n,
{
    if n > 0 {
        if k == 0 {
            lemma_binomial_full(n);
        } else if k == n {
            lemma_binomial_full(n);
        } else {
            lemma_binomial_mirror((n - 1) as nat, (k - 1) as nat);
            lemma_binomial_mirror((n - 1) as nat, k);
        }
    }
}

/// There is one way to choose everything.
pub proof fn lemma_binomial_full(n: nat)
    ensures
        binomial(n, n) == 1,
    decreases n,
{
    if n > 0 {
        lemma_binomial_full((n - 1) as nat);
        lemma_binomial_beyond((n - 1) as nat, n);
    }
}

/// `C(n, k)`, built up along the row by exact multiplications and divisions.
pub fn choose_count(n: usize, k: usize) -> (r: BigNat)
    ensures
        r@ == binomial(n as nat, k as nat),
{
    if k > n {
        proof {
            lemma_binomial_beyond(n as nat, k as nat);
        }
        return BigNat::zero();
    }
    let mut result = BigNat::from_u64(1);
    let mut i: usize = 0;
    while i < k
        invariant
            i <= k,
            k <= n,
            result@ == binomial(n as nat, i as nat),
        decreases k - i,
    {
        let scaled = result.mul_small((n - i) as u64);
        let (next, rest) = scaled.div_small((i + 1) as u64);
        proof {
            lemma_binomial_step(n as nat, i as nat);
            let c = binomial(n as nat, (i + 1) as nat);
            assert(scaled@ == c * (i + 1) + 0) by (nonlinear_arith)
                requires
                    scaled@ == result@ * (n - i),
                    (i + 1) * c == (n - i) * result@,
            ;
            lemma_fundamental_div_mod_converse(scaled@ as int, (i + 1) as int, c as int, 0);
        }
        result = next;
        i += 1;
    }
    result
}

} // verus!
