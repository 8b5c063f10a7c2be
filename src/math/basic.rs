//! Factorials, binomial coefficients, rows of Pascal's triangle and the
//! Levi-Civita symbol.

use vstd::prelude::*;

use crate::math::combinatorics::{
    binom,
    fact,
    has_repeat,
    is_unit_or_zero,
    lemma_binom_above,
    lemma_binom_rising,
    lemma_binom_step,
    lemma_binom_symmetric,
    lemma_fact_monotone,
    lemma_row_sign,
    lemma_rows_sign,
    lemma_unit_mul,
    levi_civita_of,
    row_sign,
    rows_sign,
    sign_of,
};

verus! {

/// `n!`, the product of the integers `1..=n` (`0! == 1`).
///
/// The result must fit in a `usize`: on a 64-bit target that is `n <= 20`.
pub fn factorial(n: usize) -> (r: usize)
    requires
        fact(n as nat) <= usize::MAX,
    ensures
        r == fact(n as nat),
{
    let mut res: usize = 1;
    let mut val: usize = 0;
    while val < n
        invariant
            val <= n,
            res == fact(val as nat),
            fact(n as nat) <= usize::MAX,
        decreases n - val,
    {
        val = val + 1;
        proof {
            lemma_fact_monotone(val as nat, n as nat);
            assert(fact(val as nat) == val * fact((val - 1) as nat));
            assert(res * val == val * res) by (nonlinear_arith);
        }
        res = res * val;
    }
    res
}

/// The binomial coefficient "n choose k"; 0 when `k > n`.
///
/// It runs the multiplicative recurrence
/// `C(n, j) = C(n, j - 1) * (n - j + 1) / j` on the smaller of `k` and
/// `n - k`, with a double-width intermediate product, so that the only
/// limit is that the result fits in a `usize`.
pub fn binomial(n: usize, k: usize) -> (r: usize)
    requires
        binom(n as nat, k as nat) <= usize::MAX,
    ensures
        r == binom(n as nat, k as nat),
        k > n ==> r == 0,
{
    if k > n {
        proof {
            lemma_binom_above(n as nat, k as nat);
        }
        return 0;
    }
    let kk: usize = if k > n - k { n - k } else { k };
    proof {
        lemma_binom_symmetric(n as nat, k as nat);
    }
    let mut res: usize = 1;
    let mut val: usize = 0;
    while val < kk
        invariant
            val <= kk,
            2 * kk <= n,
            res == binom(n as nat, val as nat),
            binom(n as nat, kk as nat) <= usize::MAX,
        decreases kk - val,
    {
        let num: u128 = (n - val) as u128;
        assert((res as u128) * num <= u128::MAX) by (nonlinear_arith)
            requires
                res <= usize::MAX,
                num <= usize::MAX,
                usize::MAX <= u64::MAX,
        ;
        let prod: u128 = (res as u128) * num;
        val = val + 1;
        proof {
            lemma_binom_step(n as nat, val as nat);
            lemma_binom_rising(n as nat, val as nat, kk as nat);
            let next = binom(n as nat, val as nat);
            assert(prod == next * val) by (nonlinear_arith)
                requires
                    val * next == num * res,
                    prod == res * num,
            ;
            vstd::arithmetic::div_mod::lemma_div_by_multiple(next as int, val as int);
        }
        res = (prod / (val as u128)) as usize;
    }
    res
}

/// Row `n` of Pascal's triangle, counting the top row as row 0:
/// `[C(n, 0), C(n, 1), ..., C(n, n)]`.
pub fn pascal_triangle(n: usize) -> (r: Vec<usize>)
    requires
        forall|k: nat| k <= n ==> #[trigger] binom(n as nat, k) <= usize::MAX,
    ensures
        r@.len() == n + 1,
        forall|k: int| 0 <= k <= n ==> r@[k] == binom(n as nat, k as nat),
{
    let mut res: Vec<usize> = Vec::new();
    let mut k: usize = 0;
    while k < n
        invariant
            k <= n,
            res@.len() == k,
            forall|i: int| 0 <= i < k ==> res@[i] == binom(n as nat, i as nat),
            forall|k: nat| k <= n ==> #[trigger] binom(n as nat, k) <= usize::MAX,
        decreases n - k,
    {
        res.push(binomial(n, k));
        k = k + 1;
    }
    res.push(binomial(n, n));
    res
}

/// The Levi-Civita symbol of a list of indices: the product of the signs of
/// `val[j] - val[i]` over all pairs `i < j`.
///
/// For distinct indices that is 1 or -1, by the parity of the number of
/// pairs out of order; it is 0 exactly when some index is repeated. The
/// indices are compared, never subtracted, so no value can overflow.
pub fn levi_civita(val: Vec<isize>) -> (r: isize)
    ensures
        r == levi_civita_of(val@),
        r == 0 <==> has_repeat(val@),
        is_unit_or_zero(r as int),
{
    let len: usize = val.len();
    let mut res: isize = 1;
    let mut i: usize = 0;
    while i < len
        invariant
            i <= len,
            len == val@.len(),
            res == rows_sign(val@, i as int),
        decreases len - i,
    {
        let mut j: usize = i + 1;
        while j < len
            invariant
                i < len,
                i + 1 <= j <= len,
                len == val@.len(),
                res == rows_sign(val@, i as int) * row_sign(val@, i as int, j as int),
            decreases len - j,
        {
            let step: isize = if val[j] > val[i] {
                1
            } else if val[j] < val[i] {
                -1
            } else {
                0
            };
            proof {
                let p = rows_sign(val@, i as int);
                let q = row_sign(val@, i as int, j as int);
                lemma_rows_sign(val@, i as int);
                lemma_row_sign(val@, i as int, j as int);
                lemma_unit_mul(p, q);
                lemma_unit_mul(p * q, step as int);
                assert(step == sign_of(val@[j as int] - val@[i as int]));
                assert((p * q) * step == p * (q * step)) by (nonlinear_arith);
            }
            res = res * step;
            j = j + 1;
        }
        i = i + 1;
    }
    proof {
        lemma_rows_sign(val@, len as int);
    }
    res
}

} // verus!
