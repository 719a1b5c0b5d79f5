//! Integer combinatorics behind the numerical Taylor coefficients of Padé
//! approximants: binomial coefficients and factorials in machine integers.
use vstd::arithmetic::power2::pow2;
use vstd::prelude::*;

verus! {

/// `n!`.
pub open spec fn fact(n: nat) -> nat
    decreases n,
{
    if n == 0 {
        1
    } else {
        n * fact((n - 1) as nat)
    }
}

/// The binomial coefficient `C(n, k)`, by Pascal's rule; it is `0` for `k > n`.
pub open spec fn binomial(n: nat, k: nat) -> nat
    decreases n,
{
    if k == 0 {
        1
    } else if n == 0 {
        0
    } else {
        binomial((n - 1) as nat, (k - 1) as nat) + binomial((n - 1) as nat, k)
    }
}

/// The smaller of two naturals.
pub open spec fn min_nat(a: nat, b: nat) -> nat {
    if a <= b {
        a
    } else {
        b
    }
}

/// `comb(n, k)` runs its product up to `m = min(k, n - k)`; its largest
/// intermediate product is `m * C(n, m)`, which must fit in a `usize`.
pub open spec fn comb_fits(n: nat, k: nat) -> bool {
    k > n || min_nat(k, (n - k) as nat) * binomial(n, min_nat(k, (n - k) as nat)) <= usize::MAX
}

proof fn lemma_fact_positive(n: nat)
    ensures
        fact(n) >= 1,
    decreases n,
{
    if n > 0 {
        lemma_fact_positive((n - 1) as nat);
        assert(n * fact((n - 1) as nat) >= fact((n - 1) as nat)) by (nonlinear_arith)
            requires
                n >= 1,
        ;
    }
}

proof fn lemma_fact_monotone(i: nat, n: nat)
    requires
        i <= n,
    ensures
        fact(i) <= fact(n),
    decreases n,
{
    if i < n {
        lemma_fact_monotone(i, (n - 1) as nat);
        lemma_fact_positive((n - 1) as nat);
        assert(n * fact((n - 1) as nat) >= fact((n - 1) as nat)) by (nonlinear_arith)
            requires
                n >= 1,
        ;
    }
}

/// Beyond the row the binomial coefficients vanish: `C(n, k) == 0` for `k > n`.
pub proof fn lemma_binomial_zero_above(n: nat, k: nat)
    requires
        k > n,
    ensures
        binomial(n, k) == 0,
    decreases n,
{
    if n > 0 {
        lemma_binomial_zero_above((n - 1) as nat, (k - 1) as nat);
        lemma_binomial_zero_above((n - 1) as nat, k);
    }
}

proof fn lemma_binomial_diagonal(n: nat)
    ensures
        binomial(n, n) == 1,
    decreases n,
{
    if n > 0 {
        lemma_binomial_diagonal((n - 1) as nat);
        lemma_binomial_zero_above((n - 1) as nat, n);
    }
}

/// Absorption: `(k + 1) * C(n, k + 1) == n * C(n - 1, k)`.
proof fn lemma_binomial_absorb(n: nat, k: nat)
    requires
        n >= 1,
    ensures
        (k + 1) * binomial(n, k + 1) == n * binomial((n - 1) as nat, k),
    decreases n,
{
    let n1 = (n - 1) as nat;
    if n == 1 {
        lemma_binomial_zero_above(0, k + 1);
        if k > 0 {
            lemma_binomial_zero_above(0, k);
        } else {
            assert(binomial(1, 1) == binomial(0, 0) + binomial(0, 1));
        }
    } else if k == 0 {
        // C(n, 1) == C(n - 1, 0) + C(n - 1, 1) == 1 + (n - 1)
        lemma_binomial_absorb(n1, 0);
        let b = binomial(n1, 1);
        assert(binomial((n1 - 1) as nat, 0) == 1);
        assert(b == n1) by (nonlinear_arith)
            requires
                (0 + 1) * b == n1 * 1,
        ;
        assert(binomial(n1, 0) == 1);
        assert(binomial(n, 1) == binomial(n1, 0) + binomial(n1, 1));
    } else {
        let k1 = (k - 1) as nat;
        let n2 = (n1 - 1) as nat;
        lemma_binomial_absorb(n1, k1);
        lemma_binomial_absorb(n1, k);
        // (k+1) C(n, k+1) = (k+1) C(n1, k) + (k+1) C(n1, k+1)
        //                 = k C(n1, k) + C(n1, k) + n1 C(n2, k)
        //                 = n1 C(n2, k-1) + C(n1, k) + n1 C(n2, k) = n C(n1, k)
        assert(binomial(n, k + 1) == binomial(n1, k) + binomial(n1, k + 1));
        assert(binomial(n1, k) == binomial(n2, k1) + binomial(n2, k));
        let a = binomial(n1, k);
        let b = binomial(n1, k + 1);
        let c = binomial(n2, k1);
        let d = binomial(n2, k);
        assert((k + 1) * (a + b) == n * a) by (nonlinear_arith)
            requires
                k * a == n1 * c,
                (k + 1) * b == n1 * d,
                a == c + d,
                n == n1 + 1,
        ;
    }
}

/// `(n - k) * C(n, k) == n * C(n - 1, k)`.
proof fn lemma_binomial_complement_absorb(n: nat, k: nat)
    requires
        n >= 1,
    ensures
        (n - k) * binomial(n, k) == n * binomial((n - 1) as nat, k),
{
    let n1 = (n - 1) as nat;
    if k == 0 {
    } else {
        let k1 = (k - 1) as nat;
        lemma_binomial_absorb(n, k1);
        // n C(n, k) = n C(n1, k1) + n C(n1, k) = k C(n, k) + n C(n1, k)
        let a = binomial(n, k);
        let c = binomial(n1, k1);
        let d = binomial(n1, k);
        assert(a == c + d);
        assert((n - k) * a == n * d) by (nonlinear_arith)
            requires
                k * a == n * c,
                a == c + d,
        ;
    }
}

/// One step of the multiplicative formula: `C(n, i) * (n - i) == (i + 1) * C(n, i + 1)`.
proof fn lemma_binomial_step(n: nat, i: nat)
    requires
        i < n,
    ensures
        binomial(n, i) * (n - i) == (i + 1) * binomial(n, i + 1),
{
    lemma_binomial_complement_absorb(n, i);
    lemma_binomial_absorb(n, i);
    assert(binomial(n, i) * (n - i) == (n - i) * binomial(n, i)) by (nonlinear_arith);
}

/// The coefficients rise towards the middle: `C(N, j) <= C(N, j + 1)` when `2j + 1 <= N`.
proof fn lemma_binomial_rising(big_n: nat, j: nat)
    requires
        2 * j + 1 <= big_n,
    ensures
        binomial(big_n, j) <= binomial(big_n, j + 1),
{
    lemma_binomial_step(big_n, j);
    let a = binomial(big_n, j);
    let b = binomial(big_n, j + 1);
    assert(a <= b) by (nonlinear_arith)
        requires
            a * (big_n - j) == (j + 1) * b,
            big_n - j >= j + 1,
    ;
}

proof fn lemma_binomial_monotone_prefix(big_n: nat, i: nat, j: nat)
    requires
        i <= j,
        2 * j <= big_n + 1,
    ensures
        binomial(big_n, i) <= binomial(big_n, j),
    decreases j - i,
{
    if i < j {
        lemma_binomial_monotone_prefix(big_n, i, (j - 1) as nat);
        lemma_binomial_rising(big_n, (j - 1) as nat);
    }
}

/// Every intermediate product of `comb(n, k)` is bounded by the last one, `m * C(n, m)`.
proof fn lemma_comb_step_bounded(n: nat, k: nat, i: nat)
    requires
        k <= n,
        i < min_nat(k, (n - k) as nat),
    ensures
        binomial(n, i) * (n - i) <= min_nat(k, (n - k) as nat) * binomial(n, min_nat(k, (n - k) as nat)),
{
    let m = min_nat(k, (n - k) as nat);
    let n1 = (n - 1) as nat;
    lemma_binomial_step(n, i);
    lemma_binomial_absorb(n, i);
    lemma_binomial_absorb(n, (m - 1) as nat);
    lemma_binomial_monotone_prefix(n1, i, (m - 1) as nat);
    let lo = binomial(n1, i);
    let hi = binomial(n1, (m - 1) as nat);
    assert(n * lo <= n * hi) by (nonlinear_arith)
        requires
            lo <= hi,
    ;
}

/// Symmetry of the binomial coefficients: `C(n, k) == C(n, n - k)` for `k <= n`.
pub proof fn lemma_binomial_symmetric(n: nat, k: nat)
    requires
        k <= n,
    ensures
        binomial(n, k) == binomial(n, (n - k) as nat),
    decreases n,
{
    if n == 0 {
    } else if k == 0 {
        lemma_binomial_diagonal(n);
    } else if k == n {
        lemma_binomial_diagonal(n);
    } else {
        let n1 = (n - 1) as nat;
        lemma_binomial_symmetric(n1, (k - 1) as nat);
        lemma_binomial_symmetric(n1, k);
        assert(binomial(n, (n - k) as nat) == binomial(n1, (n - k - 1) as nat) + binomial(
            n1,
            (n - k) as nat,
        ));
    }
}

/// The closed form of the binomial coefficient:
/// `C(n, k) * k! * (n - k)! == n!` for `k <= n`.
pub proof fn lemma_binomial_factorial(n: nat, k: nat)
    requires
        k <= n,
    ensures
        binomial(n, k) * fact(k) * fact((n - k) as nat) == fact(n),
    decreases k,
{
    if k == 0 {
        assert(fact(0) == 1);
        assert(binomial(n, 0) == 1);
        let f = fact(n);
        assert(1 * 1 * f == f) by (nonlinear_arith);
    } else {
        let k1 = (k - 1) as nat;
        lemma_binomial_factorial(n, k1);
        lemma_binomial_step(n, k1);
        let c0 = binomial(n, k1);
        let c1 = binomial(n, k);
        let f0 = fact(k1);
        let g1 = fact((n - k) as nat);
        assert(fact(k) == k * f0);
        assert(fact((n - k1) as nat) == (n - k1) * g1);
        assert(c1 * fact(k) * g1 == fact(n)) by (nonlinear_arith)
            requires
                c0 * f0 * ((n - k1) * g1) == fact(n),
                c0 * (n - k1) == k * c1,
                fact(k) == k * f0,
        ;
    }
}

/// Both ends of a row are one: `C(n, 0) == C(n, n) == 1`.
pub proof fn lemma_binomial_ends(n: nat)
    ensures
        binomial(n, 0) == 1,
        binomial(n, n) == 1,
{
    lemma_binomial_diagonal(n);
}

/// Pascal's rule: `C(n + 1, k + 1) == C(n, k) + C(n, k + 1)`.
pub proof fn lemma_binomial_pascal(n: nat, k: nat)
    ensures
        binomial(n + 1, k + 1) == binomial(n, k) + binomial(n, k + 1),
{
}

/// The quotient form of the binomial coefficient:
/// `C(n, k) == n! / (k! * (n - k)!)` for `k <= n`.
pub proof fn lemma_binomial_quotient(n: nat, k: nat)
    requires
        k <= n,
    ensures
        binomial(n, k) == fact(n) / (fact(k) * fact((n - k) as nat)),
{
    lemma_binomial_factorial(n, k);
    lemma_fact_positive(k);
    lemma_fact_positive((n - k) as nat);
    let c = binomial(n, k);
    let d = fact(k) * fact((n - k) as nat);
    assert(d > 0) by (nonlinear_arith)
        requires
            fact(k) >= 1,
            fact((n - k) as nat) >= 1,
            d == fact(k) * fact((n - k) as nat),
    ;
    assert(c * fact(k) * fact((n - k) as nat) == d * c) by (nonlinear_arith)
        requires
            d == fact(k) * fact((n - k) as nat),
    ;
    vstd::arithmetic::div_mod::lemma_div_multiples_vanish(c as int, d as int);
}

/// Every coefficient of row `n` is at most `2^n`.
proof fn lemma_binomial_le_pow2(n: nat, k: nat)
    ensures
        binomial(n, k) <= pow2(n),
    decreases n,
{
    vstd::arithmetic::power2::lemma_pow2_pos(n);
    if k == 0 {
    } else if n == 0 {
    } else {
        lemma_binomial_le_pow2((n - 1) as nat, (k - 1) as nat);
        lemma_binomial_le_pow2((n - 1) as nat, k);
        vstd::arithmetic::power2::lemma_pow2_unfold(n);
    }
}

/// `comb(n, k)` cannot overflow, for any `k`, once `n * 2^(n - 1)` fits in a `usize`.
pub proof fn lemma_comb_fits_pow2(n: nat, k: nat)
    requires
        n == 0 || n * pow2((n - 1) as nat) <= usize::MAX,
    ensures
        comb_fits(n, k),
{
    if k <= n {
        let m = min_nat(k, (n - k) as nat);
        if m > 0 {
            let n1 = (n - 1) as nat;
            lemma_binomial_absorb(n, (m - 1) as nat);
            lemma_binomial_le_pow2(n1, (m - 1) as nat);
            let c = binomial(n1, (m - 1) as nat);
            let p = pow2(n1);
            assert(n * c <= n * p) by (nonlinear_arith)
                requires
                    c <= p,
            ;
        }
    }
}

/// Going down a column the coefficients do not shrink: `C(a, j) <= C(b, j)` for `a <= b`.
proof fn lemma_binomial_column_monotone(a: nat, b: nat, j: nat)
    requires
        a <= b,
    ensures
        binomial(a, j) <= binomial(b, j),
    decreases b - a,
{
    if a < b {
        lemma_binomial_column_monotone(a, (b - 1) as nat, j);
        if j > 0 {
            assert(binomial(b, j) == binomial((b - 1) as nat, (j - 1) as nat) + binomial(
                (b - 1) as nat,
                j,
            ));
        }
    }
}

/// One step of the multiplicative formula, for evaluating a coefficient:
/// from `C(n, i) == v` and `v * (n - i) == (i + 1) * w` follows `C(n, i + 1) == w`.
proof fn lemma_binomial_next(n: nat, i: nat, v: nat, w: nat)
    requires
        i < n,
        binomial(n, i) == v,
        v * (n - i) == (i + 1) * w,
    ensures
        binomial(n, i + 1) == w,
{
    lemma_binomial_step(n, i);
    let b = binomial(n, i + 1);
    assert(b == w) by (nonlinear_arith)
        requires
            (i + 1) * b == (i + 1) * w,
    ;
}

/// `C(29, 14) == 77558760`, by the multiplicative formula from `C(29, 0) == 1`.
proof fn lemma_binomial_29_14()
    ensures
        binomial(29, 14) == 77558760,
{
    lemma_binomial_next(29, 0, 1, 29);
    lemma_binomial_next(29, 1, 29, 406);
    lemma_binomial_next(29, 2, 406, 3654);
    lemma_binomial_next(29, 3, 3654, 23751);
    lemma_binomial_next(29, 4, 23751, 118755);
    lemma_binomial_next(29, 5, 118755, 475020);
    lemma_binomial_next(29, 6, 475020, 1560780);
    lemma_binomial_next(29, 7, 1560780, 4292145);
    lemma_binomial_next(29, 8, 4292145, 10015005);
    lemma_binomial_next(29, 9, 10015005, 20030010);
    lemma_binomial_next(29, 10, 20030010, 34597290);
    lemma_binomial_next(29, 11, 34597290, 51895935);
    lemma_binomial_next(29, 12, 51895935, 67863915);
    lemma_binomial_next(29, 13, 67863915, 77558760);
}

/// `C(61, 30) == 232714176627630544`, by the multiplicative formula from `C(61, 0) == 1`.
proof fn lemma_binomial_61_30()
    ensures
        binomial(61, 30) == 232714176627630544,
{
    lemma_binomial_next(61, 0, 1, 61);
    lemma_binomial_next(61, 1, 61, 1830);
    lemma_binomial_next(61, 2, 1830, 35990);
    lemma_binomial_next(61, 3, 35990, 521855);
    lemma_binomial_next(61, 4, 521855, 5949147);
    lemma_binomial_next(61, 5, 5949147, 55525372);
    lemma_binomial_next(61, 6, 55525372, 436270780);
    lemma_binomial_next(61, 7, 436270780, 2944827765);
    lemma_binomial_next(61, 8, 2944827765, 17341763505);
    lemma_binomial_next(61, 9, 17341763505, 90177170226);
    lemma_binomial_next(61, 10, 90177170226, 418094152866);
    lemma_binomial_next(61, 11, 418094152866, 1742058970275);
    lemma_binomial_next(61, 12, 1742058970275, 6566222272575);
    lemma_binomial_next(61, 13, 6566222272575, 22512762077400);
    lemma_binomial_next(61, 14, 22512762077400, 70539987842520);
    lemma_binomial_next(61, 15, 70539987842520, 202802465047245);
    lemma_binomial_next(61, 16, 202802465047245, 536830054536825);
    lemma_binomial_next(61, 17, 536830054536825, 1312251244423350);
    lemma_binomial_next(61, 18, 1312251244423350, 2969831763694950);
    lemma_binomial_next(61, 19, 2969831763694950, 6236646703759395);
    lemma_binomial_next(61, 20, 6236646703759395, 12176310231149295);
    lemma_binomial_next(61, 21, 12176310231149295, 22138745874816900);
    lemma_binomial_next(61, 22, 22138745874816900, 37539612570341700);
    lemma_binomial_next(61, 23, 37539612570341700, 59437719903041025);
    lemma_binomial_next(61, 24, 59437719903041025, 87967825456500717);
    lemma_binomial_next(61, 25, 87967825456500717, 121801604478231762);
    lemma_binomial_next(61, 26, 121801604478231762, 157890968768078210);
    lemma_binomial_next(61, 27, 157890968768078210, 191724747789809255);
    lemma_binomial_next(61, 28, 191724747789809255, 218169540588403635);
    lemma_binomial_next(61, 29, 218169540588403635, 232714176627630544);
}

/// Every intermediate product of `comb(n, k)` for `n <= big_n` is at most
/// `big_n * C(big_n - 1, c)`, where `c` is the middle of row `big_n - 1`.
proof fn lemma_comb_fits_below(n: nat, k: nat, big_n: nat, c: nat)
    requires
        n <= big_n,
        big_n >= 1,
        2 * c + 1 == big_n || 2 * c + 2 == big_n,
        big_n * binomial((big_n - 1) as nat, c) <= usize::MAX,
    ensures
        comb_fits(n, k),
{
    if k <= n {
        let m = min_nat(k, (n - k) as nat);
        if m > 0 {
            let n1 = (n - 1) as nat;
            let j = (m - 1) as nat;
            assert(j + 1 == m);
            assert(2 * m <= n);
            assert(j <= c);
            lemma_binomial_absorb(n, j);
            lemma_binomial_column_monotone(n1, (big_n - 1) as nat, j);
            lemma_binomial_monotone_prefix((big_n - 1) as nat, j, c);
            let lo = binomial(n1, j);
            let hi = binomial((big_n - 1) as nat, c);
            assert(n * lo <= big_n * hi) by (nonlinear_arith)
                requires
                    lo <= hi,
                    n <= big_n,
            ;
            assert(m * binomial(n, m) == n * lo);
        } else {
            let b = binomial(n, m);
            assert(m * b == 0) by (nonlinear_arith)
                requires
                    m == 0,
            ;
        }
    }
}

/// `comb(n, k)` cannot overflow, for any `k`, when `n <= 30`, on every platform,
/// and when `n <= 62` where `usize` has 64 bits. Both bounds are tight: `C(31, 15)`
/// and `C(63, 31)` overflow on their way.
pub proof fn lemma_comb_fits_small(n: nat, k: nat)
    requires
        n <= 30 || (usize::BITS == 64 && n <= 62),
    ensures
        comb_fits(n, k),
{
    vstd::layout::unsigned_int_max_values();
    if n <= 30 {
        lemma_binomial_29_14();
        if usize::BITS == 32 {
            assert(usize::MAX == 0xffff_ffff);
        } else {
            assert(usize::MAX == 0xffff_ffff_ffff_ffff);
        }
        lemma_comb_fits_below(n, k, 30, 14);
    } else {
        lemma_binomial_61_30();
        assert(usize::MAX == 0xffff_ffff_ffff_ffff);
        lemma_comb_fits_below(n, k, 62, 30);
    }
}

/// Index of the Taylor coefficient in row `i`, column `j` of the linear system
/// for the denominator of the `[m/n]` Padé approximant: `c_{k - (j + 1)}` with
/// `k = m + 1 + i`, or `None` where that index would be negative (the entry is
/// then zero).
pub fn pade_matrix_index(m: usize, i: usize, j: usize) -> (r: Option<usize>)
    requires
        m + 1 + i <= usize::MAX,
    ensures
        r == (if j <= m + i {
            Some((m + i - j) as usize)
        } else {
            None::<usize>
        }),
{
    let k = m + 1 + i;
    if j < k {
        Some(k - (j + 1))
    } else {
        None
    }
}

/// The binomial coefficient `C(n, k)`, computed with the multiplicative formula
/// over `min(k, n - k)` steps; `0` when `k > n`.
pub fn comb(n: usize, k: usize) -> (c: usize)
    requires
        comb_fits(n as nat, k as nat),
    ensures
        c == binomial(n as nat, k as nat),
{
    comb_checked(n, k).unwrap()
}

/// `comb(n, k)`, or `None` exactly when `comb(n, k)` would overflow a `usize`
/// on the way.
pub fn comb_checked(n: usize, k: usize) -> (r: Option<usize>)
    ensures
        match r {
            Some(c) => comb_fits(n as nat, k as nat) && c == binomial(n as nat, k as nat),
            None => !comb_fits(n as nat, k as nat),
        },
{
    if k > n {
        proof {
            lemma_binomial_zero_above(n as nat, k as nat);
        }
        return Some(0);
    }
    let m: usize = if k <= n - k {
        k
    } else {
        n - k
    };
    let mut result: usize = 1;
    let mut i: usize = 0;
    while i < m
        invariant
            k <= n,
            m == min_nat(k as nat, (n - k) as nat),
            i <= m,
            result == binomial(n as nat, i as nat),
            i * binomial(n as nat, i as nat) <= usize::MAX,
        decreases m - i,
    {
        proof {
            lemma_binomial_step(n as nat, i as nat);
        }
        match result.checked_mul(n - i) {
            None => {
                proof {
                    lemma_comb_step_bounded(n as nat, k as nat, i as nat);
                }
                return None;
            },
            Some(t) => {
                proof {
                    let b = binomial(n as nat, (i + 1) as nat);
                    assert(t == (i + 1) * b);
                    vstd::arithmetic::div_mod::lemma_div_multiples_vanish(b as int, (i + 1) as int);
                }
                result = t / (i + 1);
                i += 1;
            },
        }
    }
    proof {
        lemma_binomial_symmetric(n as nat, k as nat);
    }
    Some(result)
}

/// `n!`, the product `1 * 2 * ... * n` (`1` for `n == 0`).
pub fn factorial(n: usize) -> (f: usize)
    requires
        fact(n as nat) <= usize::MAX,
    ensures
        f == fact(n as nat),
{
    factorial_checked(n).unwrap()
}

/// `n!`, or `None` exactly when `n!` does not fit in a `usize`.
pub fn factorial_checked(n: usize) -> (r: Option<usize>)
    ensures
        match r {
            Some(f) => f == fact(n as nat),
            None => fact(n as nat) > usize::MAX,
        },
{
    let mut acc: usize = 1;
    let mut i: usize = 0;
    while i < n
        invariant
            i <= n,
            acc == fact(i as nat),
        decreases n - i,
    {
        i += 1;
        proof {
            assert(fact(i as nat) == i * fact((i - 1) as nat));
            assert(acc * i == i * acc) by (nonlinear_arith);
        }
        match acc.checked_mul(i) {
            None => {
                proof {
                    lemma_fact_monotone(i as nat, n as nat);
                }
                return None;
            },
            Some(next) => {
                acc = next;
            },
        }
    }
    Some(acc)
}

} // verus!
