//! Binomial coefficients: their recurrences, bounds and an exact table.
use vstd::arithmetic::mul::{
    lemma_mul_inequality, lemma_mul_is_associative, lemma_mul_is_commutative,
    lemma_mul_is_distributive_add,
};
use vstd::prelude::*;

use crate::bignum::{big_add, digits_from_u64, exp2, nat_of};

verus! {

/// `C(n, k)`, by Pascal's rule.
pub open spec fn binom(n: nat, k: nat) -> nat
    decreases n,
{
    if k == 0 {
        1
    } else if n == 0 {
        0
    } else {
        binom((n - 1) as nat, (k - 1) as nat) + binom((n - 1) as nat, k)
    }
}

pub proof fn lemma_binom_zero_above(n: nat, k: nat)
    requires
        k > n,
    ensures
        binom(n, k) == 0,
    decreases n,
{
    if n > 0 {
        lemma_binom_zero_above((n - 1) as nat, (k - 1) as nat);
        lemma_binom_zero_above((n - 1) as nat, k);
    }
}

pub proof fn lemma_binom_one(n: nat)
    ensures
        binom(n, 1) == n,
    decreases n,
{
    if n > 0 {
        lemma_binom_one((n - 1) as nat);
        assert(binom((n - 1) as nat, 0) == 1);
        assert(binom(n, 1) == binom((n - 1) as nat, 0) + binom((n - 1) as nat, 1));
    }
}

pub proof fn lemma_binom_diagonal(n: nat)
    ensures
        binom(n, n) == 1,
    decreases n,
{
    if n > 0 {
        lemma_binom_diagonal((n - 1) as nat);
        lemma_binom_zero_above((n - 1) as nat, n);
    }
}

/// `C(n, k)` grows with `n`.
pub proof fn lemma_binom_monotone(m: nat, n: nat, k: nat)
    requires
        m <= n,
    ensures
        binom(m, k) <= binom(n, k),
    decreases n,
{
    if m < n {
        lemma_binom_monotone(m, (n - 1) as nat, k);
    }
}

/// Absorption: `k * C(n, k) == n * C(n - 1, k - 1)`.
pub proof fn lemma_binom_absorption(n: nat, k: nat)
    requires
        n >= 1,
        k >= 1,
    ensures
        k * binom(n, k) == n * binom((n - 1) as nat, (k - 1) as nat),
    decreases n,
{
    if k == 1 {
        lemma_binom_one(n);
        assert(binom((n - 1) as nat, 0) == 1);
        assert(1 * binom(n, 1) == n * 1) by (nonlinear_arith)
            requires
                binom(n, 1) == n,
        ;
    } else if n == 1 {
        lemma_binom_zero_above(1, k);
        lemma_binom_zero_above(0, (k - 1) as nat);
        assert(k * 0 == 1 * 0) by (nonlinear_arith);
    } else {
        // k C(n, k) = (k - 1) C(n - 1, k - 1) + C(n - 1, k - 1) + k C(n - 1, k)
        let a = binom((n - 1) as nat, (k - 1) as nat);
        let b = binom((n - 1) as nat, k);
        let c = binom((n - 2) as nat, (k - 2) as nat);
        let d = binom((n - 2) as nat, (k - 1) as nat);
        lemma_binom_absorption((n - 1) as nat, (k - 1) as nat);
        lemma_binom_absorption((n - 1) as nat, k);
        assert(binom(n, k) == a + b);
        assert(a == c + d);
        assert(k * (a + b) == (k - 1) * a + a + k * b) by (nonlinear_arith);
        assert((k - 1) * a == (n - 1) * c);
        assert(k * b == (n - 1) * d);
        assert((n - 1) * c + (n - 1) * d + a == n * a) by (nonlinear_arith)
            requires
                a == c + d,
        ;
    }
}

/// Symmetry: `C(n, k) == C(n, n - k)`.
pub proof fn lemma_binom_symmetry(n: nat, k: nat)
    requires
        k <= n,
    ensures
        binom(n, k) == binom(n, (n - k) as nat),
    decreases n,
{
    if k == 0 {
        lemma_binom_diagonal(n);
    } else if k == n {
        lemma_binom_diagonal(n);
    } else {
        lemma_binom_symmetry((n - 1) as nat, (k - 1) as nat);
        lemma_binom_symmetry((n - 1) as nat, k);
    }
}

/// The central coefficient grows by `2 (2m + 1) / (m + 1)` per step.
proof fn lemma_central_step(m: nat)
    ensures
        (m + 1) * binom(2 * m + 2, m + 1) == 2 * (2 * m + 1) * binom(2 * m, m),
{
    // C(2m + 2, m + 1) = C(2m + 1, m) + C(2m + 1, m + 1) = 2 C(2m + 1, m + 1).
    lemma_binom_symmetry(2 * m + 1, m);
    assert((2 * m + 1 - m) as nat == m + 1);
    // (m + 1) C(2m + 1, m + 1) = (2m + 1) C(2m, m).
    lemma_binom_absorption(2 * m + 1, m + 1);
    let c = binom(2 * m + 1, m + 1);
    assert(binom(2 * m + 2, m + 1) == 2 * c);
    assert((m + 1) * (2 * c) == 2 * ((m + 1) * c)) by (nonlinear_arith);
    assert(2 * ((2 * m + 1) * binom(2 * m, m)) == 2 * (2 * m + 1) * binom(2 * m, m)) by (nonlinear_arith);
}

/// `16^m`.
pub open spec fn pow16(m: nat) -> nat
    decreases m,
{
    if m == 0 {
        1
    } else {
        16 * pow16((m - 1) as nat)
    }
}

/// `C(2m, m)^2 (3m + 1) <= 16^m`.
proof fn lemma_central_bound(m: nat)
    ensures
        binom(2 * m, m) * binom(2 * m, m) * (3 * m + 1) <= pow16(m),
    decreases m,
{
    if m > 0 {
        let p = (m - 1) as nat;
        lemma_central_bound(p);
        lemma_central_step(p);
        let c = binom(2 * p, p);
        let d = binom(2 * m, m);
        assert(2 * p + 2 == 2 * m && p + 1 == m);
        // m d = 2 (2p + 1) c, so m^2 d^2 (3m + 1) = 4 (2p + 1)^2 c^2 (3m + 1)
        //      <= 16 (p + 1)^2 c^2 (3p + 1) <= m^2 16^m.
        assert(m * d == 2 * (2 * p + 1) * c);
        let cc = c * c;
        assert(cc * (3 * p + 1) <= pow16(p));
        assert((2 * p + 1) * (2 * p + 1) * (3 * p + 4) <= 4 * (p + 1) * (p + 1) * (3 * p + 1)) by (nonlinear_arith);
        assert((m * d) * (m * d) * (3 * m + 1) == 4 * (2 * p + 1) * (2 * p + 1) * cc * (3 * p + 4)) by (nonlinear_arith)
            requires
                m * d == 2 * (2 * p + 1) * c,
                cc == c * c,
                m == p + 1,
        ;
        assert(4 * (2 * p + 1) * (2 * p + 1) * cc * (3 * p + 4) <= 16 * (p + 1) * (p + 1) * cc * (3 * p + 1)) by (nonlinear_arith)
            requires
                (2 * p + 1) * (2 * p + 1) * (3 * p + 4) <= 4 * (p + 1) * (p + 1) * (3 * p + 1),
        ;
        assert(16 * (p + 1) * (p + 1) * cc * (3 * p + 1) <= 16 * (p + 1) * (p + 1) * pow16(p)) by (nonlinear_arith)
            requires
                cc * (3 * p + 1) <= pow16(p),
        ;
        assert((m * d) * (m * d) * (3 * m + 1) == (m * m) * (d * d * (3 * m + 1))) by (nonlinear_arith);
        assert(16 * (p + 1) * (p + 1) * pow16(p) == (m * m) * pow16(m)) by (nonlinear_arith)
            requires
                m == p + 1,
                pow16(m) == 16 * pow16(p),
        ;
        assert(m * m > 0) by (nonlinear_arith)
            requires
                m > 0,
        ;
        lemma_mul_is_commutative((m * m) as int, (d * d * (3 * m + 1)) as int);
        lemma_mul_is_commutative((m * m) as int, pow16(m) as int);
        assert((d * d * (3 * m + 1)) * (m * m) <= pow16(m) * (m * m));
        vstd::arithmetic::mul::lemma_mul_inequality_converse(
            (d * d * (3 * m + 1)) as int,
            pow16(m) as int,
            (m * m) as int,
        );
        assert(d * d * (3 * m + 1) <= pow16(m));
    } else {
        assert(binom(0, 0) == 1);
        assert(binom(0, 0) * binom(0, 0) * (3 * 0 + 1) == 1) by (nonlinear_arith)
            requires
                binom(0, 0) == 1,
        ;
    }
}

pub proof fn lemma_pow16_exp2(m: nat)
    ensures
        pow16(m) == exp2(4 * m),
    decreases m,
{
    if m > 0 {
        lemma_pow16_exp2((m - 1) as nat);
        crate::bignum::lemma_exp2_adds(4 * (m - 1) as nat, 4);
        assert(exp2(4) == 16) by {
            reveal_with_fuel(exp2, 5);
        }
    }
}

/// The number of 258-of-515 patterns fits 511 bits, so every rank fits the
/// 512 bits of a packed frontier.
pub proof fn lemma_frontier_count_fits()
    ensures
        binom(515, 258) < exp2(511),
        binom(515, 258) < exp2(512),
{
    let m: nat = 257;
    lemma_central_bound(m);
    let c = binom(514, 257);
    // C(515, 258) = C(514, 257) + C(514, 258) <= 2 C(514, 257).
    lemma_binom_symmetry(514, 258);
    lemma_binom_monotone(514, 514, 256);
    assert((514 - 258) as nat == 256);
    lemma_binom_symmetry(514, 257);
    // C(514, 256) <= C(514, 257): 257 C(514, 257) = 514 C(513, 256) and
    // 257 C(514, 256) ... compare through absorption ratios.
    lemma_binom_ratio_central();
    let d = binom(515, 258);
    assert(d <= 2 * c);
    assert(c * c * 772 <= pow16(257));
    lemma_pow16_exp2(257);
    assert(d * d <= 4 * (c * c)) by (nonlinear_arith)
        requires
            d <= 2 * c,
    ;
    assert(4 * (c * c) * 193 <= pow16(257)) by (nonlinear_arith)
        requires
            c * c * 772 <= pow16(257),
    ;
    crate::bignum::lemma_exp2_adds(1024, 4);
    crate::bignum::lemma_exp2_adds(512, 512);
    assert(exp2(4) == 16) by {
        reveal_with_fuel(exp2, 5);
    }
    let e = exp2(512);
    assert(exp2(1028) == e * e * 16);
    assert(d * d * 193 <= e * e * 16) by (nonlinear_arith)
        requires
            d * d <= 4 * (c * c),
            4 * (c * c) * 193 <= e * e * 16,
    ;
    let h = exp2(511);
    assert(e == 2 * h);
    crate::bignum::lemma_exp2_positive(511);
    if d >= h {
        assert(d * d >= h * h) by (nonlinear_arith)
            requires
                d >= h,
        ;
        assert(e * e * 16 == h * h * 64) by (nonlinear_arith)
            requires
                e == 2 * h,
        ;
        assert(h * h * 193 > h * h * 64) by (nonlinear_arith)
            requires
                h >= 1,
        ;
        assert(d * d * 193 >= h * h * 193) by (nonlinear_arith)
            requires
                d * d >= h * h,
        ;
    }
}

/// `C(514, 258) <= C(514, 257)`, so `C(515, 258) <= 2 C(514, 257)`.
proof fn lemma_binom_ratio_central()
    ensures
        binom(515, 258) <= 2 * binom(514, 257),
{
    // 258 C(514, 258) = 514 C(513, 257) and 257 C(514, 257) = 514 C(513, 256),
    // with C(513, 257) = C(513, 256) by symmetry, so C(514, 258) < C(514, 257).
    lemma_binom_absorption(514, 258);
    lemma_binom_absorption(514, 257);
    lemma_binom_symmetry(513, 257);
    assert((513 - 257) as nat == 256);
    let x = binom(514, 258);
    let y = binom(514, 257);
    assert(258 * x == 257 * y);
    assert(x <= y) by (nonlinear_arith)
        requires
            258 * x == 257 * y,
    ;
}

/// Binomial coefficients `C(n, k)` for `n <= 515` and `k <= 258`, as digit
/// vectors.
pub struct Binomials {
    entries: Vec<Vec<u32>>,
}

/// Row stride of the table.
pub open spec fn stride() -> int {
    259
}

impl Binomials {
    pub closed spec fn wf(&self) -> bool {
        &&& self.entries@.len() == 516 * 259
        &&& forall|n: int, k: int|
            0 <= n <= 515 && 0 <= k <= 258 ==> #[trigger] nat_of(self.entries@[n * 259 + k]@) == binom(
                n as nat,
                k as nat,
            )
    }

    /// Compute the whole table by Pascal's rule.
    pub fn new() -> (r: Self)
        ensures
            r.wf(),
    {
        let mut entries: Vec<Vec<u32>> = Vec::new();
        let mut n: usize = 0;
        while n <= 515
            invariant
                n <= 516,
                entries@.len() == n * 259,
                forall|m: int, k: int|
                    0 <= m < n && 0 <= k <= 258 ==> #[trigger] nat_of(entries@[m * 259 + k]@) == binom(
                        m as nat,
                        k as nat,
                    ),
            decreases 516 - n,
        {
            let mut k: usize = 0;
            while k <= 258
                invariant
                    n <= 515,
                    k <= 259,
                    entries@.len() == n * 259 + k,
                    forall|m: int, j: int|
                        0 <= m < n && 0 <= j <= 258 ==> #[trigger] nat_of(entries@[m * 259 + j]@) == binom(
                            m as nat,
                            j as nat,
                        ),
                    forall|j: int| 0 <= j < k ==> #[trigger] nat_of(entries@[n * 259 + j]@) == binom(n as nat, j as nat),
                decreases 259 - k,
            {
                let value = if k == 0 {
                    digits_from_u64(1)
                } else if n == 0 {
                    digits_from_u64(0)
                } else {
                    let row = (n - 1) * 259;
                    proof {
                        assert(nat_of(entries@[(n - 1) * 259 + (k - 1)]@) == binom((n - 1) as nat, (k - 1) as nat));
                        assert(nat_of(entries@[(n - 1) * 259 + k]@) == binom((n - 1) as nat, k as nat));
                    }
                    big_add(&entries[row + k - 1], &entries[row + k])
                };
                let ghost before = entries@;
                entries.push(value);
                proof {
                    assert forall|m: int, j: int|
                        0 <= m < n && 0 <= j <= 258 implies #[trigger] nat_of(entries@[m * 259 + j]@) == binom(
                        m as nat,
                        j as nat,
                    ) by {
                        assert(m * 259 + j < n * 259) by (nonlinear_arith)
                            requires
                                m < n,
                                j <= 258,
                        ;
                        assert(entries@[m * 259 + j] == before[m * 259 + j]);
                    }
                    assert forall|j: int| 0 <= j < k + 1 implies #[trigger] nat_of(entries@[n * 259 + j]@) == binom(
                        n as nat,
                        j as nat,
                    ) by {
                        if j < k {
                            assert(entries@[n * 259 + j] == before[n * 259 + j]);
                        }
                    }
                }
                k = k + 1;
            }
            proof {
                assert forall|m: int, j: int|
                    0 <= m < n + 1 && 0 <= j <= 258 implies #[trigger] nat_of(entries@[m * 259 + j]@) == binom(
                    m as nat,
                    j as nat,
                ) by {
                    if m == n {
                    }
                }
            }
            n = n + 1;
        }
        Binomials { entries }
    }

    /// `C(n, k)`.
    pub fn get(&self, n: usize, k: usize) -> (r: &Vec<u32>)
        requires
            self.wf(),
            n <= 515,
            k <= 258,
        ensures
            nat_of(r@) == binom(n as nat, k as nat),
    {
        proof {
            assert(n * 259 + k < 516 * 259) by (nonlinear_arith)
                requires
                    n <= 515,
                    k <= 258,
            ;
        }
        &self.entries[n * 259 + k]
    }
}

} // verus!
