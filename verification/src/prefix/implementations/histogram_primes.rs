//! Global prime-exponent reduction of repeated odd factors.
use vstd::arithmetic::power;
use vstd::prelude::*;

use crate::bignum::{digits_from_u64, exp2, lemma_exp2_strict};
use crate::dyadic::BigDyadic;
use crate::prefix::implementations::batch_balanced::{digits_product, lemma_digits_product_push};
use crate::prefix::implementations::histogram::{
    factor_power, factorizations, factors_value, histogram_product, lemma_factors_value_prefix,
    lemma_histogram_is_tail, lemma_odd_count_support, lemma_odd_prime_facts, lemma_power_bounds,
    odd_count, odd_prime_at, odd_primes, pow, product_tree, recorded_value, reduced_histogram,
    PrimeFactor,
};
use crate::prefix::{
    lemma_tail_bounds, tail_bits, tail_fits, tail_from_reduced, tail_numerator, tail_spec,
    RankedPrefix,
};

verus! {

/// `prod_{j < n} odd_prime_at(j)^exponents[j]`.
pub open spec fn prime_product(exponents: Seq<usize>, n: int) -> int
    decreases n,
{
    if n <= 0 {
        1
    } else {
        prime_product(exponents, n - 1) * power::pow(odd_prime_at(n - 1) as int, exponents[n - 1] as nat)
    }
}

/// Powers are monotone in a non-negative base.
proof fn lemma_pow_base_le(a: int, b: int, c: nat)
    requires
        0 <= a <= b,
    ensures
        0 <= power::pow(a, c) <= power::pow(b, c),
    decreases c,
{
    reveal(power::pow);
    if c > 0 {
        lemma_pow_base_le(a, b, (c - 1) as nat);
        let pa = power::pow(a, (c - 1) as nat);
        let pb = power::pow(b, (c - 1) as nat);
        assert(0 <= a * pa <= b * pb) by (nonlinear_arith)
            requires
                0 <= a <= b,
                0 <= pa <= pb,
        ;
    }
}

/// A power of a base of at least two is at least the same power of two.
proof fn lemma_exp2_le_pow(b: int, e: nat)
    requires
        b >= 2,
    ensures
        exp2(e) <= power::pow(b, e),
    decreases e,
{
    reveal(power::pow);
    if e > 0 {
        lemma_exp2_le_pow(b, (e - 1) as nat);
        let p = power::pow(b, (e - 1) as nat);
        let x = exp2((e - 1) as nat);
        assert(2 * x <= b * p) by (nonlinear_arith)
            requires
                b >= 2,
                0 <= x <= p,
        ;
    }
}

proof fn lemma_histogram_positive(s: Seq<u8>, n: int)
    ensures
        histogram_product(s, n) >= 1,
    decreases n,
{
    if n > 0 {
        lemma_histogram_positive(s, n - 1);
        histogram_factor_positive(s, n - 1);
        let h = histogram_product(s, n - 1);
        let f = power::pow(n - 1, odd_count(s, n - 1));
        assert(h * f >= 1) by (nonlinear_arith)
            requires
                h >= 1,
                f >= 1,
        ;
    }
}

proof fn histogram_factor_positive(s: Seq<u8>, o: int)
    requires
        o >= 0,
    ensures
        power::pow(o, odd_count(s, o)) >= 1,
{
    if o == 0 {
        lemma_odd_count_support(s, 0);
        power::lemma_pow0(0);
    } else {
        power::lemma_pow_positive(o, odd_count(s, o));
    }
}

proof fn lemma_histogram_monotone(s: Seq<u8>, a: int, b: int)
    requires
        0 <= a <= b,
    ensures
        histogram_product(s, a) <= histogram_product(s, b),
    decreases b,
{
    if a < b {
        lemma_histogram_monotone(s, a, b - 1);
        lemma_histogram_positive(s, b - 1);
        histogram_factor_positive(s, b - 1);
        let h = histogram_product(s, b - 1);
        let f = power::pow(b - 1, odd_count(s, b - 1));
        assert(h <= h * f) by (nonlinear_arith)
            requires
                h >= 1,
                f >= 1,
        ;
    }
}

proof fn lemma_prime_product_zero(exponents: Seq<usize>, n: int)
    requires
        n <= exponents.len(),
        forall|j: int| 0 <= j < exponents.len() ==> exponents[j] == 0,
    ensures
        prime_product(exponents, n) == 1,
    decreases n,
{
    if n > 0 {
        lemma_prime_product_zero(exponents, n - 1);
        power::lemma_pow0(odd_prime_at(n - 1) as int);
    }
}

/// The product is at least one and at least each of its prime powers.
proof fn lemma_prime_product_bounds(exponents: Seq<usize>, n: int, j: int)
    requires
        n <= 53,
    ensures
        prime_product(exponents, n) >= 1,
        0 <= j < n ==> prime_product(exponents, n) >= power::pow(
            odd_prime_at(j) as int,
            exponents[j] as nat,
        ),
    decreases n,
{
    if n > 0 {
        lemma_prime_product_bounds(exponents, n - 1, j);
        lemma_odd_prime_facts(n - 1);
        lemma_power_bounds(odd_prime_at(n - 1) as int, exponents[n - 1] as nat);
        let a = prime_product(exponents, n - 1);
        let f = power::pow(odd_prime_at(n - 1) as int, exponents[n - 1] as nat);
        assert(a * f >= a && a * f >= f) by (nonlinear_arith)
            requires
                a >= 1,
                f >= 1,
        ;
    }
}

/// Raising one exponent multiplies the product by the prime's power of the
/// increase.
proof fn lemma_prime_product_update(exponents: Seq<usize>, j: int, v: usize, n: int)
    requires
        0 <= j < exponents.len(),
        v >= exponents[j],
        n <= exponents.len(),
    ensures
        prime_product(exponents.update(j, v), n) == prime_product(exponents, n) * (if j < n {
            power::pow(odd_prime_at(j) as int, (v - exponents[j]) as nat)
        } else {
            1int
        }),
    decreases n,
{
    if n > 0 {
        lemma_prime_product_update(exponents, j, v, n - 1);
        let u = exponents.update(j, v);
        let p = odd_prime_at(n - 1) as int;
        let a = prime_product(exponents, n - 1);
        if n - 1 == j {
            let d = (v - exponents[j]) as nat;
            power::lemma_pow_adds(p, exponents[j] as nat, d);
            assert(u[j] == v);
            let x = power::pow(p, exponents[j] as nat);
            let y = power::pow(p, d);
            assert(a * 1 * (x * y) == a * x * y) by (nonlinear_arith);
        } else {
            assert(u[n - 1] == exponents[n - 1]);
            let q = power::pow(p, exponents[n - 1] as nat);
            let f = if j < n - 1 {
                power::pow(odd_prime_at(j) as int, (v - exponents[j]) as nat)
            } else {
                1int
            };
            assert(a * f * q == a * q * f) by (nonlinear_arith);
        }
    }
}

proof fn lemma_factor_power_positive(f: PrimeFactor)
    ensures
        factor_power(f) >= 1,
        factor_power(f) == power::pow(odd_prime_at(f.prime_index as int) as int, f.exponent as nat),
{
    assert(odd_prime_at(f.prime_index as int) >= 3);
    lemma_power_bounds(odd_prime_at(f.prime_index as int) as int, f.exponent as nat);
}

proof fn lemma_recorded_positive(f: Seq<PrimeFactor>, n: int)
    requires
        n <= f.len(),
    ensures
        recorded_value(f, n) >= 1,
    decreases n,
{
    if n > 0 {
        lemma_recorded_positive(f, n - 1);
        lemma_factor_power_positive(f[n - 1]);
        let r = recorded_value(f, n - 1);
        let q = factor_power(f[n - 1]);
        assert(r * q >= 1) by (nonlinear_arith)
            requires
                r >= 1,
                q >= 1,
        ;
    }
}

proof fn lemma_recorded_monotone(f: Seq<PrimeFactor>, a: int, b: int)
    requires
        0 <= a <= b <= f.len(),
    ensures
        recorded_value(f, a) <= recorded_value(f, b),
    decreases b,
{
    if a < b {
        lemma_recorded_monotone(f, a, b - 1);
        lemma_recorded_positive(f, b - 1);
        lemma_factor_power_positive(f[b - 1]);
        let r = recorded_value(f, b - 1);
        let q = factor_power(f[b - 1]);
        assert(r <= r * q) by (nonlinear_arith)
            requires
                r >= 1,
                q >= 1,
        ;
    }
}

/// The product of the first used entries of a factorization divides, and so
/// does not exceed, its value.
proof fn lemma_recorded_le_value(f: Seq<PrimeFactor>, n: int)
    requires
        f.len() == 3,
        0 <= n <= 3,
        forall|k: int| 0 <= k < n ==> (#[trigger] f[k]).exponent >= 1,
    ensures
        recorded_value(f, n) <= factors_value(f),
{
    let stop = if f[0].exponent == 0 {
        0int
    } else if f[1].exponent == 0 {
        1int
    } else if f[2].exponent == 0 {
        2int
    } else {
        3int
    };
    assert(n <= stop);
    lemma_factors_value_prefix(f, stop);
    lemma_recorded_monotone(f, n, stop);
}

/// Exact tail from one power per odd prime, its exponent summed over the
/// factorizations of every reduced odd factor.
pub fn compute(prefix: &RankedPrefix) -> (r: BigDyadic)
    requires
        tail_fits(prefix@),
    ensures
        r@ == tail_spec(prefix@),
{
    let ghost s = prefix@;
    let mut odd_counts = [0usize; 256];
    let fractional_bits = reduced_histogram(prefix, &mut odd_counts);
    let primes = odd_primes();
    let table = factorizations();
    let mut prime_exponents = [0usize; 53];
    let mut odd: usize = 3;
    proof {
        lemma_tail_bounds(s);
        lemma_histogram_is_tail(s);
        lemma_prime_product_zero(prime_exponents@, 53);
        lemma_odd_count_support(s, 0);
        lemma_odd_count_support(s, 2);
        power::lemma_pow0(0);
        power::lemma_pow0(2);
        power::lemma1_pow(odd_count(s, 1));
        reveal_with_fuel(histogram_product, 4);
    }
    while odd < 256
        invariant
            3 <= odd <= 257,
            odd % 2 == 1,
            s == prefix@,
            forall|o: int| 0 <= o < 256 ==> odd_counts@[o] == odd_count(s, o),
            table@.len() == 256,
            forall|o: int| 1 <= o < 256 && o % 2 == 1 ==> factors_value(#[trigger] table@[o]@) == o,
            forall|v: int, k: int| 0 <= v < 256 && 0 <= k < 3 ==> (#[trigger] table@[v]@[k]).prime_index < 53,
            prime_exponents@.len() == 53,
            prime_product(prime_exponents@, 53) == histogram_product(s, odd as int),
            histogram_product(s, 256) <= exp2(tail_bits(s)),
            tail_bits(s) < usize::MAX,
        decreases 257 - odd,
    {
        let count = odd_counts[odd];
        let ghost h = histogram_product(s, odd as int);
        if count != 0 {
            let factors = table[odd];
            let mut k: usize = 0;
            proof {
                assert(factors@ == table@[odd as int]@);
                assert(factors_value(factors@) == odd);
                power::lemma1_pow(count as nat);
                assert(recorded_value(factors@, 0) == 1);
                assert(h * 1 == h);
            }
            while k < 3 && factors[k].exponent != 0
                invariant
                    k <= 3,
                    3 <= odd <= 255,
                    factors@.len() == 3,
                    factors_value(factors@) == odd,
                    forall|kk: int| 0 <= kk < 3 ==> (#[trigger] factors@[kk]).prime_index < 53,
                    forall|kk: int| 0 <= kk < k ==> (#[trigger] factors@[kk]).exponent >= 1,
                    prime_exponents@.len() == 53,
                    h == histogram_product(s, odd as int),
                    count == odd_count(s, odd as int),
                    prime_product(prime_exponents@, 53) == h * power::pow(
                        recorded_value(factors@, k as int) as int,
                        count as nat,
                    ),
                    histogram_product(s, 256) <= exp2(tail_bits(s)),
                    tail_bits(s) < usize::MAX,
                decreases 3 - k,
            {
                let factor = factors[k];
                let idx = factor.prime_index as usize;
                let exponent = factor.exponent as usize;
                let ghost before = prime_exponents@;
                proof {
                    let p = odd_prime_at(idx as int) as int;
                    let c = count as nat;
                    let d = (exponent * count) as nat;
                    let rk = recorded_value(factors@, k as int) as int;
                    let fp = factor_power(factor) as int;
                    let pb = prime_product(before, 53);
                    lemma_odd_prime_facts(idx as int);
                    lemma_factor_power_positive(factor);
                    lemma_recorded_positive(factors@, k as int);
                    assert(fp == power::pow(p, exponent as nat));
                    power::lemma_pow_multiplies(p, exponent as nat, c);
                    assert(power::pow(fp, c) == power::pow(p, d));
                    power::lemma_pow_distributes(rk, fp, c);
                    assert(recorded_value(factors@, k + 1) == rk * fp);
                    lemma_recorded_le_value(factors@, k + 1);
                    lemma_pow_base_le(rk * fp, odd as int, c);
                    lemma_histogram_positive(s, odd as int);
                    lemma_histogram_monotone(s, odd + 1, 256);
                    assert(histogram_product(s, odd + 1) == h * power::pow(odd as int, c));
                    lemma_prime_product_bounds(before, 53, idx as int);
                    power::lemma_pow_adds(p, before[idx as int] as nat, d);
                    power::lemma_pow_positive(p, d);
                    let x = power::pow(p, before[idx as int] as nat);
                    let y = power::pow(p, d);
                    let e_new = (before[idx as int] + d) as nat;
                    assert(x * y <= pb * y) by (nonlinear_arith)
                        requires
                            x <= pb,
                            y >= 1,
                    ;
                    assert(pb * y == h * power::pow(rk * fp, c)) by (nonlinear_arith)
                        requires
                            pb == h * power::pow(rk, c),
                            y == power::pow(fp, c),
                            power::pow(rk * fp, c) == power::pow(rk, c) * power::pow(fp, c),
                    ;
                    assert(h * power::pow(rk * fp, c) <= h * power::pow(odd as int, c)) by (nonlinear_arith)
                        requires
                            h >= 1,
                            power::pow(rk * fp, c) <= power::pow(odd as int, c),
                    ;
                    lemma_exp2_le_pow(p, e_new);
                    assert(exp2(e_new) <= exp2(tail_bits(s)));
                    if e_new > tail_bits(s) {
                        lemma_exp2_strict(tail_bits(s), e_new);
                    }
                    assert(e_new <= tail_bits(s));
                    assert(exponent * count == d);
                }
                prime_exponents[idx] = prime_exponents[idx] + exponent * count;
                proof {
                    let p = odd_prime_at(idx as int) as int;
                    let c = count as nat;
                    let rk = recorded_value(factors@, k as int) as int;
                    let fp = factor_power(factor) as int;
                    assert(prime_exponents@ == before.update(idx as int, prime_exponents@[idx as int]));
                    lemma_prime_product_update(before, idx as int, prime_exponents@[idx as int], 53);
                    assert(power::pow(p, (exponent * count) as nat) == power::pow(fp, c));
                    assert(prime_product(prime_exponents@, 53) == h * power::pow(rk, c) * power::pow(fp, c));
                    assert(h * power::pow(rk, c) * power::pow(fp, c) == h * (power::pow(rk, c)
                        * power::pow(fp, c))) by (nonlinear_arith);
                    assert(recorded_value(factors@, k + 1) == rk * fp);
                }
                k = k + 1;
            }
            proof {
                lemma_factors_value_prefix(factors@, k as int);
            }
        } else {
            proof {
                power::lemma_pow0(odd as int);
            }
        }
        proof {
            lemma_odd_count_support(s, odd + 1);
            power::lemma_pow0(odd + 1);
            assert(count == odd_count(s, odd as int));
            assert(histogram_product(s, odd + 1) == h * power::pow(odd as int, count as nat));
            assert(histogram_product(s, odd + 2) == histogram_product(s, odd + 1) * power::pow(
                odd + 1,
                0,
            ));
        }
        odd = odd + 2;
    }
    proof {
        lemma_odd_count_support(s, 256);
        power::lemma_pow0(256);
        assert(histogram_product(s, 257) == histogram_product(s, 256) * 1);
    }
    let mut powers: Vec<Vec<u32>> = Vec::new();
    let mut j: usize = 0;
    while j < 53
        invariant
            j <= 53,
            forall|i: int| 0 <= i < 53 ==> #[trigger] primes@[i] == odd_prime_at(i),
            prime_exponents@.len() == 53,
            digits_product(powers@) == prime_product(prime_exponents@, j as int),
        decreases 53 - j,
    {
        let exponent = prime_exponents[j];
        if exponent != 0 {
            let term = pow(digits_from_u64(primes[j] as u64), exponent);
            proof {
                lemma_digits_product_push(powers@, term);
            }
            powers.push(term);
        } else {
            proof {
                power::lemma_pow0(odd_prime_at(j as int) as int);
            }
        }
        j = j + 1;
    }
    let numerator = product_tree(powers);
    proof {
        assert(digits_product(powers@) == tail_numerator(s));
    }
    tail_from_reduced(numerator, fractional_bits, Ghost(prefix@))
}

} // verus!
