//! Integers and doubles agree: order, sign and rounding.
use vstd::prelude::*;

use crate::number;
use crate::number::{nearest, Number, FRACTIONS};
use crate::value::MissingView;

verus! {

/// An integer that a double holds exactly.
pub open spec fn small(n: int) -> bool {
    -(2 * FRACTIONS) < n < 2 * FRACTIONS
}

proof fn lemma_magnitudes_grow(a: nat, b: nat)
    requires
        a < b < 2 * FRACTIONS,
    ensures
        number::nearest_bits(a) < number::nearest_bits(b) < number::INFINITE_MAGNITUDE,
{
    vstd::arithmetic::power2::lemma2_to64();
    vstd::arithmetic::power2::lemma2_to64_rest();
    number::lemma_bit_length_limit(b, 53);
    number::lemma_bit_length_limit(a, 53);
    number::lemma_nearest_bits_limit(b);
    let (m, n) = (number::bit_length(a), number::bit_length(b));
    number::lemma_significand(b, n);
    number::lemma_bit_length_bounds(b);
    let unit = FRACTIONS as int;
    assert(1021 * unit <= (1021 + n) * unit) by (nonlinear_arith)
        requires
            unit > 0,
            n >= 0,
    ;
    if a > 0 {
        number::lemma_significand(a, m);
        number::lemma_bit_length_bounds(a);
        if m == n {
            let factor = number::two_to((53 - n) as nat);
            vstd::arithmetic::power2::lemma_pow2_pos((53 - n) as nat);
            assert(a * factor < b * factor) by (nonlinear_arith)
                requires
                    a < b,
                    factor > 0,
            ;
        } else {
            if n < m {
                if n < m - 1 {
                    vstd::arithmetic::power2::lemma_pow2_strictly_increases(n, (m - 1) as nat);
                }
            }
            assert(m < n);
            assert((1021 + m) * unit + unit <= (1021 + n) * unit) by (nonlinear_arith)
                requires
                    m < n,
                    unit > 0,
            ;
        }
    }
}

/// Doubles are ordered as the integers that they are.
pub proof fn law_integers_keep_their_order(a: int, b: int)
    requires
        small(a),
        small(b),
    ensures
        nearest(a).below(nearest(b)) <==> a < b,
        nearest(a).at_most(nearest(b)) <==> a <= b,
        nearest(a).equals(nearest(b)) <==> a == b,
        nearest(a) == nearest(b) <==> a == b,
{
    number::law_small_integers_exact(a);
    number::law_small_integers_exact(b);
    let m: nat = if a < 0 {
        (-a) as nat
    } else {
        a as nat
    };
    let n: nat = if b < 0 {
        (-b) as nat
    } else {
        b as nat
    };
    if m < n {
        lemma_magnitudes_grow(m, n);
    }
    if n < m {
        lemma_magnitudes_grow(n, m);
    }
    if m > 0 {
        lemma_magnitudes_grow(0, m);
    }
    if n > 0 {
        lemma_magnitudes_grow(0, n);
    }
    assert(number::nearest_bits(0) == 0);
    assert(nearest(a).magnitude() == number::nearest_bits(m));
    assert(nearest(b).magnitude() == number::nearest_bits(n));
}

/// Changing the sign and taking the size of an integer.
pub proof fn law_integers_keep_their_sign(a: int)
    requires
        small(a),
    ensures
        a != 0 ==> nearest(a).negated() == nearest(-a),
        a == 0 ==> nearest(a).negated().equals(nearest(0)),
        nearest(a).absolute() == nearest(if a < 0 {
            -a
        } else {
            a
        }),
{
    number::law_small_integers_exact(a);
    number::law_small_integers_exact(-a);
    let m: nat = if a < 0 {
        (-a) as nat
    } else {
        a as nat
    };
    if m > 0 {
        lemma_magnitudes_grow(0, m);
    }
    assert(number::nearest_bits(0) == 0);
}

/// Rounding an integer, in any way, gives the integer.
pub proof fn law_integers_are_whole(a: int)
    requires
        small(a),
    ensures
        nearest(a).rounded() == nearest(a),
        nearest(a).truncated() == nearest(a),
        nearest(a).floored() == nearest(a),
{
    number::lemma_integer_parts(a);
    law_integers_keep_their_sign(a);
}

/// A number of size `k` with the sign of `x`.
pub open spec fn signed_like(x: Number, k: nat) -> Number {
    if x.negative() {
        nearest(k as int).negated()
    } else {
        nearest(k as int)
    }
}

/// A number whose size is `s / d`, with a fraction or without: it is cut towards
/// zero to a size of at most `s / d` and above `s / d - 1`, rounded to a size that is
/// at most a half away, halves away from zero, and its floor is not above it and
/// less than one below.
pub proof fn law_fractions(x: Number)
    requires
        x.divided(),
    ensures
        ({
            let s = x.significand() as int;
            let d = x.divisor() as int;
            &&& d > 0
            &&& exists|k: nat|
                x.truncated() == #[trigger] signed_like(x, k) && x.whole_magnitude() == k && k * d
                    <= s < (k + 1) * d
            &&& exists|k: nat|
                x.rounded() == #[trigger] signed_like(x, k) && 2 * k * d <= 2 * s + d && 2 * s < 2
                    * k * d + d
            &&& exists|k: nat|
                x.floored() == #[trigger] signed_like(x, k) && if x.negative() {
                    (k - 1) * d < s <= k * d
                } else {
                    k * d <= s < (k + 1) * d
                }
        }),
{
    let s = x.significand() as int;
    let d = x.divisor() as int;
    vstd::arithmetic::power2::lemma_pow2_pos(1074);
    if x.exponent() > 0 {
        vstd::arithmetic::power2::lemma_pow2_pos((1075 - x.exponent()) as nat);
    }
    assert(d > 0);
    let q = s / d;
    let r = s % d;
    vstd::arithmetic::div_mod::lemma_fundamental_div_mod(s, d);
    vstd::arithmetic::div_mod::lemma_mod_bound(s, d);
    vstd::arithmetic::div_mod::lemma_div_pos_is_pos(s, d);
    assert(s == q * d + r) by {
        assert(d * q == q * d) by (nonlinear_arith);
    }
    let k = q as nat;
    let up = (q + 1) as nat;
    assert((q + 1) * d == q * d + d) by (nonlinear_arith);
    assert(2 * q * d == 2 * (q * d)) by (nonlinear_arith);
    assert(2 * (q + 1) * d == 2 * (q * d) + 2 * d) by (nonlinear_arith);
    assert(x.truncated() == signed_like(x, k));
    assert(x.rounded() == if 2 * r >= d {
        signed_like(x, up)
    } else {
        signed_like(x, k)
    });
    if x.negative() && r == 0 {
        assert((q - 1) * d == q * d - d) by (nonlinear_arith);
        assert(x.floored() == signed_like(x, k));
    } else if x.negative() {
        assert((up - 1) * d == q * d);
        assert(x.floored() == signed_like(x, up));
    } else {
        assert(x.floored() == signed_like(x, k));
    }
}

/// An integer of more digits than a double holds is rounded to a multiple of the unit
/// of its last binary place that is at most half a unit away, and of two such to the
/// even one.
pub proof fn law_large_integers(n: nat)
    requires
        53 < number::bit_length(n) <= 128,
    ensures
        ({
            let unit = number::two_to((number::bit_length(n) - 53) as nat) as int;
            let v = nearest(n as int).whole_magnitude() as int;
            &&& unit > 1
            &&& v % unit == 0
            &&& -unit <= 2 * (v - n) <= unit
            &&& 2 * (v - n) == unit || 2 * (n - v) == unit ==> (v / unit) % 2 == 0
            &&& !nearest(n as int).negative()
            &&& nearest(n as int).finite()
        }),
{
    let len = number::bit_length(n);
    let unit = number::two_to((len - 53) as nat) as int;
    vstd::arithmetic::power2::lemma2_to64();
    vstd::arithmetic::power2::lemma_pow2_unfold((len - 53) as nat);
    vstd::arithmetic::power2::lemma_pow2_pos((len - 54) as nat);
    number::lemma_bit_length_bounds(n);
    number::lemma_quotient(n, len);
    number::lemma_nearest_bits_limit(n);
    let q = n as int / unit;
    let rest = n as int % unit;
    vstd::arithmetic::div_mod::lemma_fundamental_div_mod(n as int, unit);
    vstd::arithmetic::div_mod::lemma_mod_bound(n as int, unit);
    let up: int = if 2 * rest > unit || (2 * rest == unit && q % 2 == 1) {
        1
    } else {
        0
    };
    let w = q + up;
    let f = FRACTIONS as int;
    let a = 1021 + len as int;
    let r = nearest(n as int);
    assert(r.magnitude() == a * f + w);
    let v = r.whole_magnitude() as int;
    assert(v == w * unit) by {
        if w < 2 * f {
            lemma_fields(a, w);
            assert(1075 <= a + 1);
            assert(a + 1 - 1075 == len - 53);
        } else {
            assert(a * f + 2 * f == (a + 1) * f + f) by (nonlinear_arith);
            lemma_fields(a + 1, f);
            vstd::arithmetic::power2::lemma_pow2_unfold((len - 52) as nat);
            assert(a + 2 - 1075 == len - 52);
            assert(f * (2 * unit) == 2 * f * unit) by (nonlinear_arith);
        }
    }
    assert(unit * q == q * unit) by (nonlinear_arith);
    assert((q + 1) * unit == q * unit + unit) by (nonlinear_arith);
    vstd::arithmetic::div_mod::lemma_mod_multiples_basic(w, unit);
    vstd::arithmetic::div_mod::lemma_div_by_multiple(w, unit);
}

/// The exponent and the significand of a pattern.
proof fn lemma_fields(a: int, w: int)
    requires
        0 <= a,
        FRACTIONS <= w < 2 * FRACTIONS,
    ensures
        (a * FRACTIONS + w) / (FRACTIONS as int) == a + 1,
        (a * FRACTIONS + w) % (FRACTIONS as int) == w - FRACTIONS,
{
    let f = FRACTIONS as int;
    let r = w - f;
    assert(a * f + w == (a + 1) * f + r) by (nonlinear_arith)
        requires
            r == w - f,
    ;
    vstd::arithmetic::div_mod::lemma_fundamental_div_mod_converse(a * f + w, f, a + 1, r);
}

/// The user-missing values are those that equal a discrete one or lie in the range,
/// its ends among them.
pub proof fn law_user_missing(m: MissingView, n: Number)
    ensures
        m.holds(n) <==> (exists|i: int| 0 <= i < m.discrete.len() && n.equals(#[trigger] m.discrete[i]))
            || (m.range matches Some((lo, hi)) && lo.at_most(n) && n.at_most(hi)),
{
}

/// Of whole numbers: those in a range, and the discrete ones, are user-missing.
pub proof fn law_user_missing_integers(lo: int, hi: int, d: int, n: int)
    requires
        small(lo),
        small(hi),
        small(d),
        small(n),
    ensures
        (MissingView { discrete: seq![nearest(d)], range: Some((nearest(lo), nearest(hi))) }).holds(
            nearest(n),
        ) <==> n == d || lo <= n <= hi,
{
    law_integers_keep_their_order(n, d);
    law_integers_keep_their_order(lo, n);
    law_integers_keep_their_order(n, hi);
    let m = MissingView { discrete: seq![nearest(d)], range: Some((nearest(lo), nearest(hi))) };
    law_user_missing(m, nearest(n));
    assert(m.discrete[0] == nearest(d));
}

/// A conversion to an integer type drops the fraction and stays within the type: what is
/// too large or too small gives its limit, and a NaN gives 0.
pub proof fn law_saturation(x: Number, low: int, high: int)
    requires
        low <= 0 <= high,
    ensures
        low <= x.saturated(low, high) <= high,
        x.nan() ==> x.saturated(low, high) == 0,
        !x.nan() && !x.finite() ==> x.saturated(low, high) == if x.negative() {
            low
        } else {
            high
        },
        x.finite() ==> {
            let n = if x.negative() {
                -(x.whole_magnitude() as int)
            } else {
                x.whole_magnitude() as int
            };
            &&& low <= n <= high ==> x.saturated(low, high) == n
            &&& n < low ==> x.saturated(low, high) == low
            &&& high < n ==> x.saturated(low, high) == high
        },
{
}

/// The size of a finite number, as a multiple of the smallest one.
pub open spec fn units(x: Number) -> int {
    let places: nat = if x.exponent() == 0 {
        0
    } else {
        (x.exponent() - 1) as nat
    };
    x.significand() as int * number::two_to(places) as int
}

/// The value of a finite number, as a multiple of the smallest one.
pub open spec fn value(x: Number) -> int {
    if x.negative() {
        -units(x)
    } else {
        units(x)
    }
}

proof fn lemma_units_grow(a: Number, b: Number)
    requires
        a.magnitude() < b.magnitude(),
    ensures
        0 <= units(a) < units(b),
{
    let f = FRACTIONS as int;
    let (m, n) = (a.magnitude() as int, b.magnitude() as int);
    let (e, k) = (a.exponent() as int, b.exponent() as int);
    let (s, t) = (a.significand() as int, b.significand() as int);
    vstd::arithmetic::div_mod::lemma_fundamental_div_mod(m, f);
    vstd::arithmetic::div_mod::lemma_fundamental_div_mod(n, f);
    vstd::arithmetic::div_mod::lemma_mod_bound(m, f);
    vstd::arithmetic::div_mod::lemma_mod_bound(n, f);
    vstd::arithmetic::div_mod::lemma_div_pos_is_pos(m, f);
    vstd::arithmetic::div_mod::lemma_div_is_ordered(m, n, f);
    let low = if e == 0 {
        0int
    } else {
        e - 1
    };
    let high = if k == 0 {
        0int
    } else {
        k - 1
    };
    vstd::arithmetic::power2::lemma_pow2_pos(low as nat);
    vstd::arithmetic::power2::lemma_pow2_pos(high as nat);
    let (p, q) = (number::two_to(low as nat) as int, number::two_to(high as nat) as int);
    assert(s * p >= 0) by (nonlinear_arith)
        requires
            s >= 0,
            p > 0,
    ;
    assert(units(a) == s * p);
    assert(units(b) == t * q);
    if e == k {
        assert(s < t);
        assert(s * p < t * p) by (nonlinear_arith)
            requires
                s < t,
                p > 0,
        ;
    } else {
        assert(t >= f);
        if e == 0 {
            assert(s < f);
            assert(p == 1) by {
                vstd::arithmetic::power2::lemma2_to64();
            }
            assert(t * q >= f) by (nonlinear_arith)
                requires
                    t >= f,
                    q >= 1,
                    f > 0,
            ;
            assert(s * p == s) by (nonlinear_arith)
                requires
                    p == 1,
            ;
        } else {
            assert(s < 2 * f);
            vstd::arithmetic::power2::lemma_pow2_unfold((low + 1) as nat);
            if low + 1 < high {
                vstd::arithmetic::power2::lemma_pow2_strictly_increases(
                    (low + 1) as nat,
                    high as nat,
                );
            }
            assert(2 * p <= q);
            assert(s * p < t * q) by (nonlinear_arith)
                requires
                    s < 2 * f,
                    f <= t,
                    0 < p,
                    2 * p <= q,
                    f > 0,
            ;
        }
    }
}

pub proof fn lemma_no_units(x: Number)
    requires
        x.magnitude() == 0,
    ensures
        units(x) == 0,
{
    assert(x.exponent() == 0 && x.significand() == 0);
    let p = number::two_to(0) as int;
    assert(0 * p == 0) by (nonlinear_arith);
}

/// Finite numbers, whole or not, are ordered by their values.
pub proof fn law_order_by_value(a: Number, b: Number)
    requires
        a.finite(),
        b.finite(),
    ensures
        a.below(b) <==> value(a) < value(b),
        a.at_most(b) <==> value(a) <= value(b),
        a.equals(b) <==> value(a) == value(b),
{
    let zero = Number { bits: 0 };
    lemma_no_units(zero);
    if a.magnitude() < b.magnitude() {
        lemma_units_grow(a, b);
    } else if b.magnitude() < a.magnitude() {
        lemma_units_grow(b, a);
    } else {
        assert(units(a) == units(b));
    }
    if a.magnitude() > 0 {
        lemma_units_grow(zero, a);
    } else {
        lemma_no_units(a);
    }
    if b.magnitude() > 0 {
        lemma_units_grow(zero, b);
    } else {
        lemma_no_units(b);
    }
}

} // verus!
