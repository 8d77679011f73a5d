//! Double-precision numbers, as far as the text of a rate needs them.
//!
//! A rate is shown as the double-precision number nearest to it, to one
//! decimal. This module states in whole numbers which number that is: how a
//! whole number becomes a double, which double a quotient of two whole
//! numbers is, and which tenth is nearest to a double. Every rounding is to
//! the nearest, a tie going to the even neighbour.

use vstd::arithmetic::div_mod::lemma_fundamental_div_mod;
use vstd::prelude::*;

verus! {

/// The lowest mantissa of a double: 2 to the power 52.
pub const MANTISSA_LOW: u128 = 0x10_0000_0000_0000;

/// The first number above the mantissas of a double: 2 to the power 53.
pub const MANTISSA_END: u128 = 0x20_0000_0000_0000;

/// 2 to the power `k`.
pub open spec fn pow2(k: nat) -> nat
    decreases k,
{
    if k == 0 {
        1
    } else {
        2 * pow2((k - 1) as nat)
    }
}

/// `n / d` rounded to the nearest whole number; where it lies half way
/// between two, to the even one.
pub open spec fn round_half_even(n: int, d: int) -> int {
    let q = n / d;
    let r = n % d;
    if 2 * r > d || (2 * r == d && q % 2 == 1) {
        q + 1
    } else {
        q
    }
}

/// How many of its low bits `n` gives up to fit the 53 bits of a mantissa.
pub open spec fn excess_bits(n: nat) -> nat
    decreases n,
{
    if n < 0x20_0000_0000_0000 {
        0
    } else {
        1 + excess_bits(n / 2)
    }
}

/// The whole number `n` as a double: itself where it fits a mantissa, else
/// rounded in the bits it gives up.
pub open spec fn nearest_double(n: nat) -> nat {
    let unit = pow2(excess_bits(n));
    (round_half_even(n as int, unit as int) * unit) as nat
}

/// The least `k` for which `n` times 2 to the power `k` is a mantissa's
/// worth of `d`, that is, at least `d` times 2 to the power 52; 0 for an `n`
/// or a `d` of 0.
pub open spec fn scale(n: nat, d: nat) -> nat
    decreases
            (if n < 0x10_0000_0000_0000 * d {
                0x10_0000_0000_0000 * d - n
            } else {
                0
            }),
{
    if n == 0 || d == 0 || n >= 0x10_0000_0000_0000 * d {
        0
    } else {
        1 + scale(2 * n, d)
    }
}

/// The double nearest to `n / d`, for a quotient below 2 to the power 52:
/// the pair of a mantissa `m` and a `k` whose double is `m` divided by 2 to
/// the power `k`. For a quotient of 2 to the power 52 or more, `k` is 0 and
/// `m` the quotient rounded to a whole number, which is a double only while
/// it fits a mantissa.
pub open spec fn nearest_quotient(n: nat, d: nat) -> (nat, nat) {
    let k = scale(n, d);
    (round_half_even((n * pow2(k)) as int, d as int) as nat, k)
}

/// The tenth nearest to the double `m` divided by 2 to the power `k`, as a
/// number of tenths.
pub open spec fn nearest_tenth(m: nat, k: nat) -> int {
    round_half_even((10 * m) as int, pow2(k) as int)
}

/// A power of two is at least 1.
pub proof fn pow2_is_positive(k: nat)
    ensures
        pow2(k) >= 1,
    decreases k,
{
    if k > 0 {
        pow2_is_positive((k - 1) as nat);
    }
}

/// A whole number that fits a mantissa is a double as it stands.
pub proof fn small_numbers_are_exact(n: nat)
    requires
        n < 0x20_0000_0000_0000,
    ensures
        nearest_double(n) == n,
{
    assert(excess_bits(n) == 0);
    assert(pow2(0) == 1);
    assert(n as int / 1 == n && n as int % 1 == 0);
}

/// Rounding moves a quotient by less than one: the rounded quotient times
/// the divisor lies within one divisor of the dividend.
pub proof fn rounding_stays_close(n: int, d: int)
    requires
        0 <= n,
        0 < d,
    ensures
        n / d <= round_half_even(n, d) <= n / d + 1,
        n - d < round_half_even(n, d) * d <= n + d,
        2 * (round_half_even(n, d) * d - n) <= d,
        2 * (n - round_half_even(n, d) * d) <= d,
{
    lemma_fundamental_div_mod(n, d);
    let q = n / d;
    let r = n % d;
    assert(0 <= r < d);
    assert((q + 1) * d == q * d + d) by (nonlinear_arith);
    assert(d * q == q * d) by (nonlinear_arith);
}

/// `n / d` rounded to the nearest whole number, a tie going to the even
/// one.
pub fn round_to_even(n: u128, d: u128) -> (q: u128)
    requires
        d > 0,
    ensures
        q == round_half_even(n as int, d as int),
{
    let q = n / d;
    let r = n % d;
    if r > d - r || (r == d - r && q % 2 == 1) {
        proof {
            lemma_fundamental_div_mod(n as int, d as int);
            assert(d >= 2);
            assert(q * 2 <= d * q) by (nonlinear_arith)
                requires
                    d >= 2,
                    q >= 0,
            ;
        }
        q + 1
    } else {
        q
    }
}

/// The whole number `n` as a double.
pub fn to_double(n: u64) -> (c: u128)
    ensures
        c == nearest_double(n as nat),
        c <= n + 4096,
{
    let mut t: u128 = n as u128;
    let mut unit: u128 = 1;
    let ghost mut s: nat = 0;
    while t >= MANTISSA_END
        invariant
            unit == pow2(s),
            1 <= unit <= 4096,
            t * unit <= n,
            excess_bits(n as nat) == s + excess_bits(t as nat),
        decreases t,
    {
        proof {
            assert(unit < 2048) by (nonlinear_arith)
                requires
                    t * unit <= n,
                    t >= 0x20_0000_0000_0000,
                    n < 0x1_0000_0000_0000_0000,
                    unit >= 1,
            ;
            assert((t / 2) * (unit * 2) <= t * unit) by (nonlinear_arith)
                requires
                    t >= 0,
                    unit >= 1,
            ;
            s = s + 1;
        }
        t = t / 2;
        unit = unit * 2;
    }
    let m = round_to_even(n as u128, unit);
    proof {
        rounding_stays_close(n as int, unit as int);
    }
    m * unit
}

/// The double nearest to `n / d`: its mantissa, and the power of two that
/// the mantissa is divided by.
pub fn quotient_double(n: u128, d: u128) -> (out: (u128, u128))
    requires
        0 < d <= 0x1_0000_0000,
        n <= 0x4_0000_0000_0000_0000,
    ensures
        out.0 == nearest_quotient(n as nat, d as nat).0,
        out.1 == pow2(nearest_quotient(n as nat, d as nat).1),
        out.1 >= 1,
        out.0 <= 0x8_0000_0000_0000_0000,
{
    let bound: u128 = MANTISSA_LOW * d;
    let mut scaled: u128 = n;
    let mut unit: u128 = 1;
    let ghost mut k: nat = 0;
    assert(n * pow2(0) == n) by (nonlinear_arith)
        requires
            pow2(0) == 1,
    ;
    while 0 < scaled && scaled < bound
        invariant
            bound == MANTISSA_LOW * d,
            0 < d <= 0x1_0000_0000,
            unit == pow2(k),
            scaled == n * pow2(k),
            1 <= unit,
            n > 0 ==> unit <= scaled,
            scaled <= 0x4_0000_0000_0000_0000 || scaled < 2 * bound,
            scale(n as nat, d as nat) == k + scale(scaled as nat, d as nat),
        decreases
                (if scaled < bound {
                    bound - scaled
                } else {
                    0
                }),
    {
        proof {
            assert(n * (2 * pow2(k)) == 2 * (n * pow2(k))) by (nonlinear_arith);
            assert(n > 0) by (nonlinear_arith)
                requires
                    scaled == n * pow2(k),
                    scaled > 0,
            ;
            k = k + 1;
        }
        scaled = scaled * 2;
        unit = unit * 2;
    }
    let m = round_to_even(scaled, d);
    proof {
        rounding_stays_close(scaled as int, d as int);
        assert(scaled / d <= scaled) by (nonlinear_arith)
            requires
                d >= 1,
                scaled >= 0,
        ;
        assert(scaled <= 0x4_0000_0000_0000_0000 || scaled / d <= 0x20_0000_0000_0000)
            by (nonlinear_arith)
            requires
                d >= 1,
                scaled <= 0x4_0000_0000_0000_0000 || scaled < 2 * (0x10_0000_0000_0000 * d),
        ;
    }
    (m, unit)
}

} // verus!
