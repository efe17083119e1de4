//! Shared exact primitives for histogram-based tail products.
use vstd::arithmetic::power;
use vstd::prelude::*;

use crate::bignum::{big_mul, digits_from_u64, nat_of};
use crate::prefix::implementations::batch_balanced::{digits_product, product_rounds};
use crate::prefix::{reduce_factor, reduced_factor, tail_bits, tail_numerator, RankedPrefix};

verus! {

/// The odd prime at position `i` of [`odd_primes`].
pub open spec fn odd_prime_at(i: int) -> u16 {
    if i == 0 {
        3
    } else if i == 1 {
        5
    } else if i == 2 {
        7
    } else if i == 3 {
        11
    } else if i == 4 {
        13
    } else if i == 5 {
        17
    } else if i == 6 {
        19
    } else if i == 7 {
        23
    } else if i == 8 {
        29
    } else if i == 9 {
        31
    } else if i == 10 {
        37
    } else if i == 11 {
        41
    } else if i == 12 {
        43
    } else if i == 13 {
        47
    } else if i == 14 {
        53
    } else if i == 15 {
        59
    } else if i == 16 {
        61
    } else if i == 17 {
        67
    } else if i == 18 {
        71
    } else if i == 19 {
        73
    } else if i == 20 {
        79
    } else if i == 21 {
        83
    } else if i == 22 {
        89
    } else if i == 23 {
        97
    } else if i == 24 {
        101
    } else if i == 25 {
        103
    } else if i == 26 {
        107
    } else if i == 27 {
        109
    } else if i == 28 {
        113
    } else if i == 29 {
        127
    } else if i == 30 {
        131
    } else if i == 31 {
        137
    } else if i == 32 {
        139
    } else if i == 33 {
        149
    } else if i == 34 {
        151
    } else if i == 35 {
        157
    } else if i == 36 {
        163
    } else if i == 37 {
        167
    } else if i == 38 {
        173
    } else if i == 39 {
        179
    } else if i == 40 {
        181
    } else if i == 41 {
        191
    } else if i == 42 {
        193
    } else if i == 43 {
        197
    } else if i == 44 {
        199
    } else if i == 45 {
        211
    } else if i == 46 {
        223
    } else if i == 47 {
        227
    } else if i == 48 {
        229
    } else if i == 49 {
        233
    } else if i == 50 {
        239
    } else if i == 51 {
        241
    } else {
        251
    }
}

/// The 53 odd primes below 256, in increasing order.
pub fn odd_primes() -> (r: [u16; 53])
    ensures
        forall|i: int| 0 <= i < 53 ==> #[trigger] r@[i] == odd_prime_at(i),
{
    let r: [u16; 53] = [3, 5, 7, 11, 13, 17, 19, 23, 29, 31, 37, 41, 43, 47, 53, 59, 61, 67, 71, 73, 79, 83, 89, 97, 101, 103, 107, 109, 113, 127, 131, 137, 139, 149, 151, 157, 163, 167, 173, 179, 181, 191, 193, 197, 199, 211, 223, 227, 229, 233, 239, 241, 251];
    proof {
        assert forall|i: int| 0 <= i < 53 implies #[trigger] r@[i] == odd_prime_at(i) by {
        }
    }
    r
}

/// Listed primes are odd, at least `2 i + 3`, and below 256.
pub(crate) proof fn lemma_odd_prime_facts(i: int)
    requires
        0 <= i < 53,
    ensures
        odd_prime_at(i) % 2 == 1,
        odd_prime_at(i) >= 2 * i + 3,
        odd_prime_at(i) <= 251,
{
}

/// An odd number below 256 that no listed prime divides is one.
proof fn lemma_no_listed_factor(r: u16)
    requires
        1 <= r <= 255,
        r % 2 == 1,
        forall|i: int| 0 <= i < 53 ==> r % #[trigger] odd_prime_at(i) != 0,
    ensures
        r == 1,
{
    assert(r % odd_prime_at(0) != 0);
    assert(r % odd_prime_at(1) != 0);
    assert(r % odd_prime_at(2) != 0);
    assert(r % odd_prime_at(3) != 0);
    assert(r % odd_prime_at(4) != 0);
    assert(r % odd_prime_at(5) != 0);
    assert(r % odd_prime_at(6) != 0);
    assert(r % odd_prime_at(7) != 0);
    assert(r % odd_prime_at(8) != 0);
    assert(r % odd_prime_at(9) != 0);
    assert(r % odd_prime_at(10) != 0);
    assert(r % odd_prime_at(11) != 0);
    assert(r % odd_prime_at(12) != 0);
    assert(r % odd_prime_at(13) != 0);
    assert(r % odd_prime_at(14) != 0);
    assert(r % odd_prime_at(15) != 0);
    assert(r % odd_prime_at(16) != 0);
    assert(r % odd_prime_at(17) != 0);
    assert(r % odd_prime_at(18) != 0);
    assert(r % odd_prime_at(19) != 0);
    assert(r % odd_prime_at(20) != 0);
    assert(r % odd_prime_at(21) != 0);
    assert(r % odd_prime_at(22) != 0);
    assert(r % odd_prime_at(23) != 0);
    assert(r % odd_prime_at(24) != 0);
    assert(r % odd_prime_at(25) != 0);
    assert(r % odd_prime_at(26) != 0);
    assert(r % odd_prime_at(27) != 0);
    assert(r % odd_prime_at(28) != 0);
    assert(r % odd_prime_at(29) != 0);
    assert(r % odd_prime_at(30) != 0);
    assert(r % odd_prime_at(31) != 0);
    assert(r % odd_prime_at(32) != 0);
    assert(r % odd_prime_at(33) != 0);
    assert(r % odd_prime_at(34) != 0);
    assert(r % odd_prime_at(35) != 0);
    assert(r % odd_prime_at(36) != 0);
    assert(r % odd_prime_at(37) != 0);
    assert(r % odd_prime_at(38) != 0);
    assert(r % odd_prime_at(39) != 0);
    assert(r % odd_prime_at(40) != 0);
    assert(r % odd_prime_at(41) != 0);
    assert(r % odd_prime_at(42) != 0);
    assert(r % odd_prime_at(43) != 0);
    assert(r % odd_prime_at(44) != 0);
    assert(r % odd_prime_at(45) != 0);
    assert(r % odd_prime_at(46) != 0);
    assert(r % odd_prime_at(47) != 0);
    assert(r % odd_prime_at(48) != 0);
    assert(r % odd_prime_at(49) != 0);
    assert(r % odd_prime_at(50) != 0);
    assert(r % odd_prime_at(51) != 0);
    assert(r % odd_prime_at(52) != 0);
    assert(r == 1) by (bit_vector)
        requires
            1 <= r <= 255,
            r % 2 == 1,
            r % 3 != 0,
            r % 5 != 0,
            r % 7 != 0,
            r % 11 != 0,
            r % 13 != 0,
            r % 17 != 0,
            r % 19 != 0,
            r % 23 != 0,
            r % 29 != 0,
            r % 31 != 0,
            r % 37 != 0,
            r % 41 != 0,
            r % 43 != 0,
            r % 47 != 0,
            r % 53 != 0,
            r % 59 != 0,
            r % 61 != 0,
            r % 67 != 0,
            r % 71 != 0,
            r % 73 != 0,
            r % 79 != 0,
            r % 83 != 0,
            r % 89 != 0,
            r % 97 != 0,
            r % 101 != 0,
            r % 103 != 0,
            r % 107 != 0,
            r % 109 != 0,
            r % 113 != 0,
            r % 127 != 0,
            r % 131 != 0,
            r % 137 != 0,
            r % 139 != 0,
            r % 149 != 0,
            r % 151 != 0,
            r % 157 != 0,
            r % 163 != 0,
            r % 167 != 0,
            r % 173 != 0,
            r % 179 != 0,
            r % 181 != 0,
            r % 191 != 0,
            r % 193 != 0,
            r % 197 != 0,
            r % 199 != 0,
            r % 211 != 0,
            r % 223 != 0,
            r % 227 != 0,
            r % 229 != 0,
            r % 233 != 0,
            r % 239 != 0,
            r % 241 != 0,
            r % 251 != 0,
    ;
}

/// One prime power `primes[prime_index]^exponent` of a factorization.
#[derive(Clone, Copy, Debug, PartialEq, Eq)]
pub struct PrimeFactor {
    pub prime_index: u8,
    pub exponent: u8,
}

/// The value of a prime power.
pub open spec fn factor_power(factor: PrimeFactor) -> nat {
    power::pow(odd_prime_at(factor.prime_index as int) as int, factor.exponent as nat) as nat
}

/// The product of a factorization's prime powers, up to its first empty
/// entry.
pub open spec fn factors_value(factors: Seq<PrimeFactor>) -> nat
    decreases factors.len(),
{
    if factors.len() == 0 || factors[0].exponent == 0 {
        1
    } else {
        factor_power(factors[0]) * factors_value(factors.drop_first())
    }
}

/// The product of the first `n` prime powers.
pub open spec fn recorded_value(factors: Seq<PrimeFactor>, n: int) -> nat
    decreases n,
{
    if n <= 0 {
        1
    } else {
        recorded_value(factors, n - 1) * factor_power(factors[n - 1])
    }
}

/// The least product of `n` powers of distinct odd primes.
pub open spec fn least_product(n: int) -> nat {
    if n <= 0 {
        1
    } else if n == 1 {
        3
    } else if n == 2 {
        15
    } else {
        105
    }
}

pub fn empty_factor() -> (r: PrimeFactor)
    ensures
        r.prime_index == 0,
        r.exponent == 0,
{
    PrimeFactor { prime_index: 0, exponent: 0 }
}

/// A power of at least two with a positive exponent is at least its base,
/// and every power of it exceeds its exponent.
pub(crate) proof fn lemma_power_bounds(base: int, e: nat)
    requires
        base >= 2,
    ensures
        power::pow(base, e) >= e + 1,
        e >= 1 ==> power::pow(base, e) >= base,
        power::pow(base, e) >= 1,
    decreases e,
{
    vstd::arithmetic::power::lemma_pow_positive(base, e);
    reveal(power::pow);
    if e > 0 {
        lemma_power_bounds(base, (e - 1) as nat);
        vstd::arithmetic::power::lemma_pow_positive(base, (e - 1) as nat);
        assert(power::pow(base, e) == base * power::pow(base, (e - 1) as nat));
        assert(base * power::pow(base, (e - 1) as nat) >= 2 * power::pow(base, (e - 1) as nat)) by (nonlinear_arith)
            requires
                base >= 2,
                power::pow(base, (e - 1) as nat) >= 1,
        ;
        assert(base * power::pow(base, (e - 1) as nat) >= base) by (nonlinear_arith)
            requires
                base >= 2,
                power::pow(base, (e - 1) as nat) >= 1,
        ;
    }
}

/// The factorization of one odd number below 256 by trial division.
fn factor_odd(primes: &[u16; 53], odd: u16) -> (r: [PrimeFactor; 3])
    requires
        forall|i: int| 0 <= i < 53 ==> #[trigger] primes@[i] == odd_prime_at(i),
        1 <= odd <= 255,
        odd % 2 == 1,
    ensures
        factors_value(r@) == odd,
        forall|k: int| 0 <= k < 3 ==> #[trigger] r@[k].prime_index < 53,
{
    let mut entry = [empty_factor(); 3];
    let mut remainder: u16 = odd;
    let mut prime_index: usize = 0;
    let mut factor_index: usize = 0;
    proof {
        assert(recorded_value(entry@, 0) == 1);
        assert(odd as nat == odd as nat * 1);
    }
    while prime_index < 53 && remainder != 1
        invariant
            forall|i: int| 0 <= i < 53 ==> #[trigger] primes@[i] == odd_prime_at(i),
            1 <= odd <= 255,
            prime_index <= 53,
            factor_index <= 3,
            factor_index <= prime_index,
            1 <= remainder <= 255,
            remainder % 2 == 1,
            entry@.len() == 3,
            odd == remainder as nat * recorded_value(entry@, factor_index as int),
            recorded_value(entry@, factor_index as int) >= least_product(factor_index as int),
            forall|k: int| 0 <= k < factor_index ==> (#[trigger] entry@[k]).exponent >= 1 && entry@[k].prime_index
                < prime_index,
            forall|k: int| factor_index <= k < 3 ==> (#[trigger] entry@[k]).exponent == 0 && entry@[k].prime_index
                == 0,
            forall|i: int| 0 <= i < prime_index ==> remainder % #[trigger] odd_prime_at(i) != 0,
        decreases 53 - prime_index,
    {
        let prime = primes[prime_index];
        let mut exponent: u8 = 0;
        proof {
            lemma_odd_prime_facts(prime_index as int);
            lemma_power_bounds(prime as int, 0);
            vstd::arithmetic::power::lemma_pow0(prime as int);
            assert(remainder as nat * 1 * recorded_value(entry@, factor_index as int) == remainder as nat
                * recorded_value(entry@, factor_index as int));
        }
        while remainder % prime == 0
            invariant
                prime == odd_prime_at(prime_index as int),
                3 <= prime <= 251,
                prime % 2 == 1,
                1 <= odd <= 255,
                1 <= remainder <= 255,
                remainder % 2 == 1,
                odd == remainder as nat * power::pow(prime as int, exponent as nat) as nat * recorded_value(
                    entry@,
                    factor_index as int,
                ),
                recorded_value(entry@, factor_index as int) >= 1,
                power::pow(prime as int, exponent as nat) >= exponent + 1,
                power::pow(prime as int, exponent as nat) >= 1,
                forall|i: int| 0 <= i < prime_index ==> remainder % #[trigger] odd_prime_at(i) != 0,
            decreases remainder,
        {
            let next = remainder / prime;
            proof {
                let p = prime as int;
                let r = remainder as int;
                let q = next as int;
                vstd::arithmetic::div_mod::lemma_fundamental_div_mod(r, p);
                assert(r == p * q);
                assert(q >= 1 && q < r) by (nonlinear_arith)
                    requires
                        r == p * q,
                        r >= 1,
                        p >= 3,
                ;
                assert(q % 2 == 1) by (nonlinear_arith)
                    requires
                        r == p * q,
                        r % 2 == 1,
                        p % 2 == 1,
                        q >= 1,
                {
                    if q % 2 == 0 {
                        assert(r == 2 * (p * (q / 2)));
                    }
                }
                vstd::arithmetic::power::lemma_pow_adds(p, exponent as nat, 1);
                vstd::arithmetic::power::lemma_pow1(p);
                let e1 = (exponent + 1) as nat;
                assert(power::pow(p, e1) == power::pow(p, exponent as nat) * p);
                let rec = recorded_value(entry@, factor_index as int);
                assert(odd == q * power::pow(p, e1) * rec) by (nonlinear_arith)
                    requires
                        odd == r * power::pow(p, exponent as nat) * rec,
                        r == p * q,
                        power::pow(p, e1) == power::pow(p, exponent as nat) * p,
                ;
                lemma_power_bounds(p, e1);
                assert(power::pow(p, e1) <= 255) by (nonlinear_arith)
                    requires
                        odd == q * power::pow(p, e1) * rec,
                        q >= 1,
                        rec >= 1,
                        odd <= 255,
                        power::pow(p, e1) >= 1,
                ;
                assert forall|i: int| 0 <= i < prime_index implies q % (#[trigger] odd_prime_at(i) as int) != 0 by {
                    let d = odd_prime_at(i) as int;
                    lemma_odd_prime_facts(i);
                    if q % d == 0 {
                        vstd::arithmetic::div_mod::lemma_fundamental_div_mod(q, d);
                        assert(r == (p * (q / d)) * d) by (nonlinear_arith)
                            requires
                                r == p * q,
                                q == d * (q / d),
                        ;
                        vstd::arithmetic::div_mod::lemma_mod_multiples_basic(p * (q / d), d);
                        assert(r % d == 0);
                    }
                }
            }
            remainder = next;
            exponent = exponent + 1;
        }
        if exponent != 0 {
            proof {
                let p = prime as int;
                let rec = recorded_value(entry@, factor_index as int);
                lemma_power_bounds(p, exponent as nat);
                if factor_index == 3 {
                    assert(power::pow(p, exponent as nat) >= 9);
                    assert(false) by (nonlinear_arith)
                        requires
                            odd == remainder as nat * power::pow(p, exponent as nat) * rec,
                            remainder >= 1,
                            rec >= 105,
                            power::pow(p, exponent as nat) >= 9,
                            odd <= 255,
                    ;
                }
            }
            let ghost before = entry@;
            entry[factor_index] = PrimeFactor { prime_index: prime_index as u8, exponent };
            proof {
                let p = prime as int;
                let rec = recorded_value(before, factor_index as int);
                reveal_with_fuel(recorded_value, 4);
                assert(recorded_value(entry@, factor_index as int) == rec);
                assert(recorded_value(entry@, factor_index + 1) == rec * power::pow(p, exponent as nat));
                lemma_power_bounds(p, exponent as nat);
                assert(least_product(factor_index + 1) <= least_product(factor_index as int) * p);
                assert(rec * power::pow(p, exponent as nat) >= least_product(factor_index as int) * p) by (nonlinear_arith)
                    requires
                        rec >= least_product(factor_index as int),
                        power::pow(p, exponent as nat) >= p,
                        p >= 0,
                ;
                assert(rec * power::pow(p, exponent as nat) >= least_product(factor_index + 1));
                assert(odd == remainder as nat * (rec * power::pow(p, exponent as nat))) by (nonlinear_arith)
                    requires
                        odd == remainder as nat * power::pow(p, exponent as nat) * rec,
                ;
            }
            factor_index = factor_index + 1;
        } else {
            proof {
                vstd::arithmetic::power::lemma_pow0(prime as int);
                let rec = recorded_value(entry@, factor_index as int);
                assert(odd == remainder as nat * rec) by (nonlinear_arith)
                    requires
                        odd == remainder as nat * power::pow(prime as int, 0) as nat * rec,
                        power::pow(prime as int, 0) == 1,
                ;
            }
        }
        prime_index = prime_index + 1;
    }
    proof {
        if remainder != 1 {
            lemma_no_listed_factor(remainder);
        }
        assert(odd == recorded_value(entry@, factor_index as int));
        lemma_factors_value_prefix(entry@, factor_index as int);
    }
    entry
}

/// A factorization whose first `n` entries are used and whose entry `n`, if
/// any, is empty has the value of those `n` entries.
pub(crate) proof fn lemma_factors_value_prefix(entry: Seq<PrimeFactor>, n: int)
    requires
        entry.len() == 3,
        0 <= n <= 3,
        forall|k: int| 0 <= k < n ==> (#[trigger] entry[k]).exponent >= 1,
        n == 3 || entry[n].exponent == 0,
    ensures
        factors_value(entry) == recorded_value(entry, n),
{
    reveal_with_fuel(factors_value, 4);
    reveal_with_fuel(recorded_value, 4);
    let a = entry.drop_first();
    let b = a.drop_first();
    let c = b.drop_first();
    assert(c.len() == 0);
    assert(a[0] == entry[1] && a[1] == entry[2] && b[0] == entry[2]);
    let f0 = factor_power(entry[0]);
    let f1 = factor_power(entry[1]);
    let f2 = factor_power(entry[2]);
    if n == 0 {
    } else if n == 1 {
        assert(factors_value(a) == 1);
        assert(factors_value(entry) == f0 * 1);
    } else if n == 2 {
        assert(factors_value(b) == 1);
        assert(factors_value(a) == f1 * 1);
        assert(factors_value(entry) == f0 * f1);
        assert(recorded_value(entry, 2) == 1 * f0 * f1);
    } else {
        assert(factors_value(c) == 1);
        assert(factors_value(b) == f2 * 1);
        assert(factors_value(a) == f1 * f2);
        assert(factors_value(entry) == f0 * (f1 * f2));
        assert(recorded_value(entry, 3) == 1 * f0 * f1 * f2);
        assert(f0 * (f1 * f2) == 1 * f0 * f1 * f2) by (nonlinear_arith);
    }
}

/// The factorizations of the odd numbers below 256 over [`odd_primes`];
/// entries for even numbers stay empty.
pub fn factorizations() -> (r: Vec<[PrimeFactor; 3]>)
    ensures
        r@.len() == 256,
        forall|odd: int| 1 <= odd < 256 && odd % 2 == 1 ==> factors_value(#[trigger] r@[odd]@) == odd,
        forall|even: int, k: int|
            0 <= even < 256 && even % 2 == 0 && 0 <= k < 3 ==> (#[trigger] r@[even]@[k]).exponent == 0,
        forall|v: int, k: int| 0 <= v < 256 && 0 <= k < 3 ==> (#[trigger] r@[v]@[k]).prime_index < 53,
{
    let primes = odd_primes();
    let mut table: Vec<[PrimeFactor; 3]> = Vec::new();
    let mut value: u16 = 0;
    while value < 256
        invariant
            value <= 256,
            forall|i: int| 0 <= i < 53 ==> #[trigger] primes@[i] == odd_prime_at(i),
            table@.len() == value,
            forall|odd: int| 1 <= odd < value && odd % 2 == 1 ==> factors_value(#[trigger] table@[odd]@) == odd,
            forall|even: int, k: int|
                0 <= even < value && even % 2 == 0 && 0 <= k < 3 ==> (#[trigger] table@[even]@[k]).exponent == 0,
            forall|v: int, k: int| 0 <= v < value && 0 <= k < 3 ==> (#[trigger] table@[v]@[k]).prime_index < 53,
        decreases 256 - value,
    {
        if value % 2 == 0 {
            table.push([empty_factor(); 3]);
        } else {
            let entry = factor_odd(&primes, value);
            table.push(entry);
        }
        value = value + 1;
    }
    table
}


/// Number of positions of `s` holding the byte `v`.
pub open spec fn raw_count(s: Seq<u8>, v: int) -> nat
    decreases s.len(),
{
    if s.len() == 0 {
        0
    } else {
        raw_count(s.drop_last(), v) + (if s.last() == v {
            1nat
        } else {
            0nat
        })
    }
}

/// Number of positions of `s` whose reduced odd factor is `odd`.
pub open spec fn odd_count(s: Seq<u8>, odd: int) -> nat
    decreases s.len(),
{
    if s.len() == 0 {
        0
    } else {
        odd_count(s.drop_last(), odd) + (if reduced_factor(s.last()).0 == odd {
            1nat
        } else {
            0nat
        })
    }
}

/// `prod_{o < n} o^odd_count(s, o)`: the histogram of reduced odd factors
/// multiplied out below `n`.
pub open spec fn histogram_product(s: Seq<u8>, n: int) -> int
    decreases n,
{
    if n <= 0 {
        1
    } else {
        histogram_product(s, n - 1) * power::pow(n - 1, odd_count(s, n - 1))
    }
}

/// Raw counts of the bytes below `r` whose reduced odd factor is `odd`.
spec fn grouped_count(s: Seq<u8>, odd: int, r: int) -> nat
    decreases r,
{
    if r <= 0 {
        0
    } else {
        grouped_count(s, odd, r - 1) + (if reduced_factor((r - 1) as u8).0 == odd {
            raw_count(s, r - 1)
        } else {
            0nat
        })
    }
}

/// Fractional bits contributed by the bytes below `r`, counted by value.
spec fn grouped_bits(s: Seq<u8>, r: int) -> nat
    decreases r,
{
    if r <= 0 {
        0
    } else {
        grouped_bits(s, r - 1) + raw_count(s, r - 1) * reduced_factor((r - 1) as u8).1
    }
}

proof fn lemma_counts_push(s: Seq<u8>, x: u8, v: int)
    ensures
        raw_count(s.push(x), v) == raw_count(s, v) + (if x == v {
            1nat
        } else {
            0nat
        }),
        odd_count(s.push(x), v) == odd_count(s, v) + (if reduced_factor(x).0 == v {
            1nat
        } else {
            0nat
        }),
{
    assert(s.push(x).drop_last() =~= s);
}

proof fn lemma_counts_bounded(s: Seq<u8>, v: int)
    ensures
        raw_count(s, v) <= s.len(),
        odd_count(s, v) <= s.len(),
    decreases s.len(),
{
    if s.len() > 0 {
        lemma_counts_bounded(s.drop_last(), v);
    }
}

/// Only odd values in `1..=255` occur as reduced odd factors.
pub(crate) proof fn lemma_odd_count_support(s: Seq<u8>, v: int)
    requires
        v < 1 || v > 255 || v % 2 == 0,
    ensures
        odd_count(s, v) == 0,
    decreases s.len(),
{
    if s.len() > 0 {
        lemma_odd_count_support(s.drop_last(), v);
        crate::prefix::lemma_reduced_factor_facts(s.last());
    }
}

proof fn lemma_grouped_empty(s: Seq<u8>, odd: int, r: int)
    requires
        s.len() == 0,
    ensures
        grouped_count(s, odd, r) == 0,
        grouped_bits(s, r) == 0,
    decreases r,
{
    if r > 0 {
        lemma_grouped_empty(s, odd, r - 1);
        assert(raw_count(s, r - 1) == 0);
    }
}

proof fn lemma_grouped_push(s: Seq<u8>, x: u8, odd: int, r: int)
    requires
        0 <= r <= 256,
    ensures
        grouped_count(s.push(x), odd, r) == grouped_count(s, odd, r) + (if x < r && reduced_factor(
            x,
        ).0 == odd {
            1nat
        } else {
            0nat
        }),
        grouped_bits(s.push(x), r) == grouped_bits(s, r) + (if x < r {
            reduced_factor(x).1
        } else {
            0nat
        }),
    decreases r,
{
    if r > 0 {
        lemma_grouped_push(s, x, odd, r - 1);
        lemma_counts_push(s, x, r - 1);
        let v = (r - 1) as u8;
        assert(v == r - 1);
        let c = raw_count(s, r - 1);
        let b = reduced_factor(v).1;
        if x == r - 1 {
            assert(x == v);
            assert((c + 1) * b == c * b + b) by (nonlinear_arith);
        }
    }
}

/// Grouping the raw counts by reduced odd factor recovers the per-position
/// counts and the fractional bits.
proof fn lemma_grouped_total(s: Seq<u8>, odd: int)
    ensures
        grouped_count(s, odd, 256) == odd_count(s, odd),
        grouped_bits(s, 256) == tail_bits(s),
    decreases s.len(),
{
    if s.len() == 0 {
        lemma_grouped_empty(s, odd, 256);
    } else {
        let init = s.drop_last();
        lemma_grouped_total(init, odd);
        assert(init.push(s.last()) =~= s);
        lemma_grouped_push(init, s.last(), odd, 256);
        lemma_counts_push(init, s.last(), odd);
    }
}

proof fn lemma_grouped_monotone(s: Seq<u8>, odd: int, r1: int, r2: int)
    requires
        r1 <= r2,
    ensures
        grouped_count(s, odd, r1) <= grouped_count(s, odd, r2),
        grouped_bits(s, r1) <= grouped_bits(s, r2),
    decreases r2 - r1,
{
    if r1 < r2 {
        lemma_grouped_monotone(s, odd, r1, r2 - 1);
    }
}

proof fn lemma_histogram_empty(s: Seq<u8>, n: int)
    requires
        s.len() == 0,
    ensures
        histogram_product(s, n) == 1,
    decreases n,
{
    if n > 0 {
        lemma_histogram_empty(s, n - 1);
        power::lemma_pow0(n - 1);
    }
}

proof fn lemma_histogram_push(s: Seq<u8>, x: u8, n: int)
    requires
        0 <= n,
    ensures
        histogram_product(s.push(x), n) == histogram_product(s, n) * (if reduced_factor(x).0 < n {
            reduced_factor(x).0 as int
        } else {
            1int
        }),
    decreases n,
{
    if n > 0 {
        lemma_histogram_push(s, x, n - 1);
        lemma_counts_push(s, x, n - 1);
        let o = reduced_factor(x).0 as int;
        let c = odd_count(s, n - 1);
        let h = histogram_product(s, n - 1);
        let p = power::pow(n - 1, c);
        if o == n - 1 {
            power::lemma_pow_adds(n - 1, c, 1);
            power::lemma_pow1(n - 1);
            assert(h * 1 * (p * o) == h * p * o) by (nonlinear_arith);
        } else {
            let f = if o < n - 1 {
                o
            } else {
                1int
            };
            assert(h * f * p == h * p * f) by (nonlinear_arith);
        }
    }
}

/// The histogram of reduced odd factors multiplies out to the tail
/// numerator.
pub proof fn lemma_histogram_is_tail(s: Seq<u8>)
    ensures
        histogram_product(s, 256) == tail_numerator(s),
    decreases s.len(),
{
    if s.len() == 0 {
        lemma_histogram_empty(s, 256);
    } else {
        let init = s.drop_last();
        lemma_histogram_is_tail(init);
        assert(init.push(s.last()) =~= s);
        lemma_histogram_push(init, s.last(), 256);
        crate::prefix::lemma_reduced_factor_facts(s.last());
    }
}

/// Fill a zeroed histogram with the count of each reduced odd factor of the
/// prefix and return the prefix's fractional-bit count.
pub fn reduced_histogram(prefix: &RankedPrefix, odd_counts: &mut [usize; 256]) -> (r: usize)
    requires
        forall|o: int| 0 <= o < 256 ==> old(odd_counts)@[o] == 0,
        tail_bits(prefix@) <= usize::MAX,
    ensures
        forall|o: int| 0 <= o < 256 ==> final(odd_counts)@[o] == odd_count(prefix@, o),
        r == tail_bits(prefix@),
{
    let s = prefix.as_slice();
    let n = s.len();
    let mut raw_counts = [0usize; 256];
    let mut i: usize = 0;
    proof {
        assert(s@.take(0) =~= Seq::<u8>::empty());
    }
    while i < n
        invariant
            i <= n,
            n == s@.len(),
            forall|v: int| 0 <= v < 256 ==> raw_counts@[v] == raw_count(s@.take(i as int), v),
            forall|v: int| 0 <= v < 256 ==> raw_counts@[v] <= i,
        decreases n - i,
    {
        let raw = s[i];
        proof {
            assert(s@.take(i + 1) =~= s@.take(i as int).push(raw));
            assert forall|v: int| 0 <= v < 256 implies raw_count(s@.take(i + 1), v) == raw_count(
                s@.take(i as int),
                v,
            ) + (if raw == v {
                1nat
            } else {
                0nat
            }) by {
                lemma_counts_push(s@.take(i as int), raw, v);
            }
        }
        raw_counts[raw as usize] = raw_counts[raw as usize] + 1;
        i = i + 1;
    }
    proof {
        assert(s@.take(n as int) =~= s@);
    }
    let mut fractional_bits: usize = 0;
    let mut raw: usize = 0;
    while raw < 256
        invariant
            raw <= 256,
            s@ == prefix@,
            n == s@.len(),
            tail_bits(s@) <= usize::MAX,
            forall|v: int| 0 <= v < 256 ==> raw_counts@[v] == raw_count(s@, v),
            forall|o: int| 0 <= o < 256 ==> odd_counts@[o] == grouped_count(s@, o, raw as int),
            fractional_bits == grouped_bits(s@, raw as int),
        decreases 256 - raw,
    {
        let count = raw_counts[raw];
        let ghost before = odd_counts@;
        if count != 0 {
            let (odd, bits) = reduce_factor(raw as u8);
            proof {
                assert((raw as int) as u8 == raw as u8);
                assert(grouped_count(s@, odd as int, raw + 1) == grouped_count(s@, odd as int, raw as int)
                    + count);
                assert(grouped_bits(s@, raw + 1) == grouped_bits(s@, raw as int) + count * bits);
                lemma_grouped_monotone(s@, odd as int, raw + 1, 256);
                lemma_grouped_total(s@, odd as int);
                lemma_counts_bounded(s@, odd as int);
                assert(odd_counts@[odd as int] == grouped_count(s@, odd as int, raw as int));
                assert(odd_counts@[odd as int] + count <= usize::MAX);
                assert(bits * count == count * bits) by (nonlinear_arith);
            }
            odd_counts[odd as usize] = odd_counts[odd as usize] + count;
            fractional_bits = fractional_bits + bits * count;
        } else {
            proof {
                let b = reduced_factor(raw as u8).1;
                assert((raw as int) as u8 == raw as u8);
                assert(raw_count(s@, raw as int) == 0);
                assert(0 * b == 0);
                assert(grouped_bits(s@, raw + 1) == grouped_bits(s@, raw as int));
            }
        }
        proof {
            assert forall|o: int| 0 <= o < 256 implies odd_counts@[o] == grouped_count(
                s@,
                o,
                raw + 1,
            ) by {
                assert((raw as int) as u8 == raw as u8);
            }
        }
        raw = raw + 1;
    }
    proof {
        assert forall|o: int| 0 <= o < 256 implies odd_counts@[o] == odd_count(prefix@, o) by {
            lemma_grouped_total(s@, o);
        }
        lemma_grouped_total(s@, 0);
    }
    fractional_bits
}

/// `base^exponent` by binary exponentiation.
pub fn pow(base: Vec<u32>, exponent: usize) -> (r: Vec<u32>)
    ensures
        nat_of(r@) == power::pow(nat_of(base@) as int, exponent as nat),
{
    let ghost b0 = nat_of(base@) as int;
    let ghost e0 = exponent as nat;
    let mut base = base;
    let mut exponent = exponent;
    let mut result = digits_from_u64(1);
    while exponent != 0
        invariant
            nat_of(result@) * power::pow(nat_of(base@) as int, exponent as nat) == power::pow(b0, e0),
        decreases exponent,
    {
        let ghost b = nat_of(base@) as int;
        let ghost e = exponent as nat;
        let ghost before = nat_of(result@) as int;
        if exponent % 2 == 1 {
            result = big_mul(&result, &base);
        }
        exponent = exponent / 2;
        if exponent != 0 {
            base = big_mul(&base, &base);
        }
        proof {
            let h = exponent as nat;
            let m = (e % 2) as nat;
            let bb = nat_of(base@) as int;
            assert(e == 2 * h + m);
            power::lemma_pow_adds(b, 2 * h, m);
            power::lemma_pow_multiplies(b, 2, h);
            power::lemma_square_is_pow2(b);
            power::lemma_pow0(b);
            power::lemma_pow1(b);
            if h == 0 {
                power::lemma_pow0(bb);
                power::lemma_pow0(b * b);
            }
            assert(power::pow(bb, h) == power::pow(b * b, h));
            let q = power::pow(b * b, h);
            let f = if m == 1 {
                b
            } else {
                1int
            };
            assert(power::pow(b, e) == q * f);
            assert(nat_of(result@) == before * f);
            assert(before * f * q == before * (q * f)) by (nonlinear_arith);
        }
    }
    proof {
        power::lemma_pow0(nat_of(base@) as int);
    }
    result
}

/// Multiply a list of terms in balanced rounds; the empty product is one.
pub fn product_tree(terms: Vec<Vec<u32>>) -> (r: Vec<u32>)
    ensures
        nat_of(r@) == digits_product(terms@),
{
    product_rounds(terms)
}

} // verus!
