//! Mathematical models of the combinatorial functions, and the facts about
//! them that the executable code relies on.

use vstd::prelude::*;

verus! {

/// `n!`, the product of the integers `1..=n`.
pub open spec fn fact(n: nat) -> nat
    decreases n,
{
    if n == 0 {
        1
    } else {
        n * fact((n - 1) as nat)
    }
}

/// Every factorial is positive.
pub proof fn lemma_fact_positive(n: nat)
    ensures
        fact(n) >= 1,
    decreases n,
{
    if n > 0 {
        lemma_fact_positive((n - 1) as nat);
        assert(n * fact((n - 1) as nat) >= fact((n - 1) as nat)) by (nonlinear_arith)
            requires
                n >= 1,
                fact((n - 1) as nat) >= 1,
        ;
    }
}

/// The factorial does not decrease: `i <= j` gives `i! <= j!`.
pub proof fn lemma_fact_monotone(i: nat, j: nat)
    requires
        i <= j,
    ensures
        fact(i) <= fact(j),
    decreases j,
{
    if i < j {
        lemma_fact_monotone(i, (j - 1) as nat);
        lemma_fact_positive((j - 1) as nat);
        assert(j * fact((j - 1) as nat) >= fact((j - 1) as nat)) by (nonlinear_arith)
            requires
                j >= 1,
                fact((j - 1) as nat) >= 1,
        ;
    }
}

/// The binomial coefficient "n choose k", by Pascal's rule: the number of
/// `k`-element subsets of an `n`-element set.
pub open spec fn binom(n: nat, k: nat) -> nat
    decreases n,
{
    if k == 0 {
        1
    } else if n == 0 {
        0
    } else {
        binom((n - 1) as nat, (k - 1) as nat) + binom((n - 1) as nat, k)
    }
}

/// No subset has more elements than the set: `k > n` gives `binom(n, k) == 0`.
pub proof fn lemma_binom_above(n: nat, k: nat)
    requires
        k > n,
    ensures
        binom(n, k) == 0,
    decreases n,
{
    if n > 0 {
        lemma_binom_above((n - 1) as nat, (k - 1) as nat);
        lemma_binom_above((n - 1) as nat, k);
    }
}

/// `binom(n, n) == 1`.
pub proof fn lemma_binom_full(n: nat)
    ensures
        binom(n, n) == 1,
    decreases n,
{
    if n > 0 {
        lemma_binom_full((n - 1) as nat);
        lemma_binom_above((n - 1) as nat, n);
    }
}

/// `binom(n, 1) == n`.
pub proof fn lemma_binom_one(n: nat)
    ensures
        binom(n, 1) == n,
    decreases n,
{
    if n > 0 {
        lemma_binom_one((n - 1) as nat);
        assert(binom((n - 1) as nat, 0) == 1);
    }
}

/// Choosing `k` elements is choosing the `n - k` that are left out:
/// `binom(n, k) == binom(n, n - k)` for `k <= n`.
pub proof fn lemma_binom_symmetric(n: nat, k: nat)
    requires
        k <= n,
    ensures
        binom(n, k) == binom(n, (n - k) as nat),
    decreases n,
{
    if k == 0 {
        lemma_binom_full(n);
        assert(binom(n, 0) == 1);
    } else if k < n {
        let m = (n - 1) as nat;
        lemma_binom_symmetric(m, (k - 1) as nat);
        lemma_binom_symmetric(m, k);
        assert(binom(n, (n - k) as nat) == binom(m, (n - k - 1) as nat) + binom(m, (n - k) as nat));
    } else {
        lemma_binom_full(n);
        assert(binom(n, 0) == 1);
    }
}

/// The absorption identity: `(k + 1) * binom(n + 1, k + 1) == (n + 1) * binom(n, k)`.
pub proof fn lemma_binom_absorption(n: nat, k: nat)
    ensures
        (k + 1) * binom(n + 1, k + 1) == (n + 1) * binom(n, k),
    decreases n,
{
    if n == 0 {
        assert(binom(1, k + 1) == binom(0, k) + binom(0, k + 1));
        lemma_binom_above(0, k + 1);
        if k > 0 {
            lemma_binom_above(0, k);
            assert((k + 1) * binom(1, k + 1) == 0) by (nonlinear_arith)
                requires
                    binom(1, k + 1) == 0,
            ;
        } else {
            assert(binom(0, 0) == 1);
        }
    } else if k == 0 {
        assert(k + 1 == 1);
        lemma_binom_one(n + 1);
        assert(binom(n, 0) == 1);
    } else {
        let m = (n - 1) as nat;
        lemma_binom_absorption(m, (k - 1) as nat);
        lemma_binom_absorption(m, k);
        let a = binom(n, k);
        let b = binom(n, k + 1);
        let c = binom(m, (k - 1) as nat);
        let d = binom(m, k);
        let e = binom(n + 1, k + 1);
        assert(e == a + b);
        assert(a == c + d);
        assert((k + 1) * e == (n + 1) * a) by (nonlinear_arith)
            requires
                e == a + b,
                a == c + d,
                k * a == n * c,
                (k + 1) * b == n * d,
        ;
    }
}

/// Two neighbours in a row of Pascal's triangle:
/// `j * binom(n, j) == (n - j + 1) * binom(n, j - 1)` for `1 <= j <= n`.
pub proof fn lemma_binom_step(n: nat, j: nat)
    requires
        1 <= j <= n,
    ensures
        j * binom(n, j) == (n - j + 1) * binom(n, (j - 1) as nat),
{
    let m = (n - 1) as nat;
    lemma_binom_absorption(m, (j - 1) as nat);
    lemma_binom_symmetric(n, (j - 1) as nat);
    lemma_binom_absorption(m, (n - j) as nat);
    lemma_binom_symmetric(m, (j - 1) as nat);
}

/// The first half of a row of Pascal's triangle rises:
/// `binom(n, j) <= binom(n, m)` for `j <= m` and `2 * m <= n`.
pub proof fn lemma_binom_rising(n: nat, j: nat, m: nat)
    requires
        j <= m,
        2 * m <= n,
    ensures
        binom(n, j) <= binom(n, m),
    decreases m,
{
    if j < m {
        lemma_binom_rising(n, j, (m - 1) as nat);
        lemma_binom_step(n, m);
        let lo = binom(n, (m - 1) as nat);
        let hi = binom(n, m);
        assert(lo <= hi) by (nonlinear_arith)
            requires
                m * hi == (n - m + 1) * lo,
                1 <= m,
                m <= n - m + 1,
        ;
    }
}

/// The sign of an integer: 1, -1 or 0.
pub open spec fn sign_of(x: int) -> int {
    if x > 0 {
        1
    } else if x < 0 {
        -1
    } else {
        0
    }
}

/// The product of `sign_of(s[m] - s[i])` over `i < m < j`.
pub open spec fn row_sign(s: Seq<isize>, i: int, j: int) -> int
    decreases j - i,
{
    if j <= i + 1 {
        1
    } else {
        row_sign(s, i, j - 1) * sign_of(s[j - 1] - s[i])
    }
}

/// The product of the rows `0..i`: `sign_of(s[b] - s[a])` over every pair
/// `a < b` with `a < i`.
pub open spec fn rows_sign(s: Seq<isize>, i: int) -> int
    decreases i,
{
    if i <= 0 {
        1
    } else {
        rows_sign(s, i - 1) * row_sign(s, i - 1, s.len() as int)
    }
}

/// The Levi-Civita symbol of a sequence of indices: the product of
/// `sign_of(s[j] - s[i])` over all pairs `i < j`.
pub open spec fn levi_civita_of(s: Seq<isize>) -> int {
    rows_sign(s, s.len() as int)
}

/// Some value occurs twice in `s`.
pub open spec fn has_repeat(s: Seq<isize>) -> bool {
    exists|i: int, j: int| 0 <= i < j < s.len() && s[i] == s[j]
}

/// A value among -1, 0 and 1.
pub open spec fn is_unit_or_zero(x: int) -> bool {
    x == -1 || x == 0 || x == 1
}

/// Products of values among -1, 0 and 1 stay among them, and vanish exactly
/// when a factor does.
pub proof fn lemma_unit_mul(x: int, y: int)
    requires
        is_unit_or_zero(x),
        is_unit_or_zero(y),
    ensures
        is_unit_or_zero(x * y),
        x * y == 0 <==> (x == 0 || y == 0),
{
    assert(is_unit_or_zero(x * y) && (x * y == 0 <==> (x == 0 || y == 0))) by (nonlinear_arith)
        requires
            is_unit_or_zero(x),
            is_unit_or_zero(y),
    ;
}

/// A row vanishes exactly when some later entry repeats `s[i]`.
pub proof fn lemma_row_sign(s: Seq<isize>, i: int, j: int)
    requires
        0 <= i < j <= s.len(),
    ensures
        is_unit_or_zero(row_sign(s, i, j)),
        row_sign(s, i, j) == 0 <==> exists|m: int| i < m < j && s[m] == s[i],
    decreases j - i,
{
    if j > i + 1 {
        lemma_row_sign(s, i, j - 1);
        lemma_unit_mul(row_sign(s, i, j - 1), sign_of(s[j - 1] - s[i]));
        if row_sign(s, i, j - 1) == 0 {
            let m = choose|m: int| i < m < j - 1 && s[m] == s[i];
            assert(i < m < j && s[m] == s[i]);
        }
    }
}

/// The rows `0..i` vanish exactly when some `s[a]` with `a < i` occurs
/// again later.
pub proof fn lemma_rows_sign(s: Seq<isize>, i: int)
    requires
        0 <= i <= s.len(),
    ensures
        is_unit_or_zero(rows_sign(s, i)),
        rows_sign(s, i) == 0 <==> exists|a: int, b: int|
            0 <= a < i && a < b < s.len() && s[a] == s[b],
    decreases i,
{
    if i > 0 {
        let n = s.len() as int;
        lemma_rows_sign(s, i - 1);
        lemma_row_sign(s, i - 1, n);
        lemma_unit_mul(rows_sign(s, i - 1), row_sign(s, i - 1, n));
        if rows_sign(s, i) == 0 {
            if rows_sign(s, i - 1) == 0 {
                let (a, b) = choose|a: int, b: int|
                    0 <= a < i - 1 && a < b < n && s[a] == s[b];
                assert(0 <= a < i && a < b < n && s[a] == s[b]);
            } else {
                let m = choose|m: int| i - 1 < m < n && #[trigger] s[m] == s[i - 1];
                assert(0 <= i - 1 < i && i - 1 < m < n && s[i - 1] == s[m]);
            }
        } else {
            assert forall|a: int, b: int|
                0 <= a < i && a < b < n implies s[a] != s[b] by {
                if a == i - 1 && s[a] == s[b] {
                    assert(i - 1 < b < n && s[b] == s[i - 1]);
                }
            }
        }
    }
}

} // verus!
