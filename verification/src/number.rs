//! Double-precision numbers held as their IEEE 754 bit patterns.
//!
//! A [`Number`] is the 64 bits of a binary64 value. Classification, comparison,
//! sign changes, rounding to integers and conversions from and to integers are exact
//! operations on those bits and are verified here. Rounded arithmetic is in [`crate::arith`].
use vstd::prelude::*;

verus! {

/// Weight of the sign bit.
pub const SIGN_WEIGHT: u64 = 0x8000_0000_0000_0000;

/// Magnitude of an infinity: every larger magnitude is a NaN.
pub const INFINITE_MAGNITUDE: u64 = 0x7FF0_0000_0000_0000;

/// Number of distinct fractions for one exponent.
pub const FRACTIONS: u64 = 0x10_0000_0000_0000;

/// The bits of a binary64 value.
#[derive(Debug, Clone, Copy, PartialEq, Eq, Structural)]
pub struct Number {
    pub bits: u64,
}

/// `2` to the power `e`.
pub open spec fn two_to(e: nat) -> nat {
    vstd::arithmetic::power2::pow2(e)
}

/// The number of binary digits of `n`; zero has none.
pub open spec fn bit_length(n: nat) -> nat
    decreases n,
{
    if n == 0 {
        0
    } else {
        1 + bit_length(n / 2)
    }
}

/// The pattern of the double nearest to `n`, ties going to the even fraction.
pub open spec fn nearest_bits(n: nat) -> nat {
    let len = bit_length(n);
    if n == 0 {
        0
    } else if len <= 53 {
        (1021 + len) * FRACTIONS as nat + n * two_to((53 - len) as nat)
    } else {
        let unit = two_to((len - 53) as nat);
        let quotient = n / unit;
        let rest = n % unit;
        let up: nat = if 2 * rest > unit || (2 * rest == unit && quotient % 2 == 1) {
            1
        } else {
            0
        };
        (1021 + len) * FRACTIONS as nat + quotient + up
    }
}

/// The double nearest to the integer `n`, ties going to the even fraction.
pub open spec fn nearest(n: int) -> Number {
    if n < 0 {
        Number { bits: (nearest_bits((-n) as nat) + SIGN_WEIGHT) as u64 }
    } else {
        Number { bits: nearest_bits(n as nat) as u64 }
    }
}

/// `n` brought into the range from `low` to `high`.
pub open spec fn clamp(n: int, low: int, high: int) -> int {
    if n < low {
        low
    } else if n > high {
        high
    } else {
        n
    }
}

impl Number {
    /// The sign bit is set.
    pub open spec fn negative(self) -> bool {
        self.bits >= SIGN_WEIGHT
    }

    /// The pattern without its sign bit.
    pub open spec fn magnitude(self) -> nat {
        if self.negative() {
            (self.bits - SIGN_WEIGHT) as nat
        } else {
            self.bits as nat
        }
    }

    pub open spec fn nan(self) -> bool {
        self.magnitude() > INFINITE_MAGNITUDE
    }

    pub open spec fn finite(self) -> bool {
        self.magnitude() < INFINITE_MAGNITUDE
    }

    /// Orders the numbers that are not NaN; both zeros have rank 0.
    pub open spec fn rank(self) -> int {
        if self.negative() {
            -(self.magnitude() as int)
        } else {
            self.magnitude() as int
        }
    }

    /// IEEE equality: false on NaN, and the two zeros are equal.
    pub open spec fn equals(self, other: Number) -> bool {
        !self.nan() && !other.nan() && self.rank() == other.rank()
    }

    /// IEEE `<`.
    pub open spec fn below(self, other: Number) -> bool {
        !self.nan() && !other.nan() && self.rank() < other.rank()
    }

    /// IEEE `<=`.
    pub open spec fn at_most(self, other: Number) -> bool {
        !self.nan() && !other.nan() && self.rank() <= other.rank()
    }

    pub open spec fn zero(self) -> bool {
        self.magnitude() == 0
    }

    /// The biased exponent field.
    pub open spec fn exponent(self) -> nat {
        self.magnitude() / FRACTIONS as nat
    }

    /// The integer significand: the value is this times two to the power
    /// `exponent - 1075` (`-1074` where the exponent field is zero).
    pub open spec fn significand(self) -> nat {
        let fraction = self.magnitude() % FRACTIONS as nat;
        if self.exponent() == 0 {
            fraction
        } else {
            FRACTIONS as nat + fraction
        }
    }

    /// The integer part of the absolute value of a finite number.
    pub open spec fn whole_magnitude(self) -> nat {
        if self.exponent() >= 1075 {
            self.significand() * two_to((self.exponent() - 1075) as nat)
        } else if self.exponent() == 0 {
            self.significand() / two_to(1074)
        } else {
            self.significand() / two_to((1075 - self.exponent()) as nat)
        }
    }

    /// The number with its fraction dropped, brought into the range from `low`
    /// to `high`; a NaN gives 0.
    pub open spec fn saturated(self, low: int, high: int) -> int {
        if self.nan() {
            0
        } else if !self.finite() {
            if self.negative() {
                low
            } else {
                high
            }
        } else if self.negative() {
            clamp(-(self.whole_magnitude() as int), low, high)
        } else {
            clamp(self.whole_magnitude() as int, low, high)
        }
    }

    /// Weight of the last binary place of the significand below one: the value is
    /// the significand divided by this.
    pub open spec fn divisor(self) -> nat {
        if self.exponent() == 0 {
            two_to(1074)
        } else {
            two_to((1075 - self.exponent()) as nat)
        }
    }

    /// The number is no NaN and not infinite, and it may have a fraction.
    pub open spec fn divided(self) -> bool {
        self.finite() && self.exponent() < 1075
    }

    /// A number of the same sign whose size is an integer.
    pub open spec fn with_size(self, k: nat) -> Number {
        if self.negative() {
            nearest(k as int).negated()
        } else {
            nearest(k as int)
        }
    }

    /// The number without its fraction.
    pub open spec fn truncated(self) -> Number {
        if self.divided() {
            self.with_size(self.significand() / self.divisor())
        } else {
            self
        }
    }

    /// The nearest integer, halves away from zero.
    pub open spec fn rounded(self) -> Number {
        if !self.divided() {
            self
        } else if 2 * (self.significand() % self.divisor()) >= self.divisor() {
            self.with_size(self.significand() / self.divisor() + 1)
        } else {
            self.with_size(self.significand() / self.divisor())
        }
    }

    /// The largest integer that is not above the number.
    pub open spec fn floored(self) -> Number {
        if !self.divided() {
            self
        } else if self.negative() && self.significand() % self.divisor() != 0 {
            self.with_size(self.significand() / self.divisor() + 1)
        } else {
            self.with_size(self.significand() / self.divisor())
        }
    }

    /// A whole number of a size below 2 to the power 53, and not the negative zero.
    pub open spec fn whole(self) -> bool {
        let k = self.saturated(i64::MIN as int, i64::MAX as int);
        -(2 * FRACTIONS) < k < 2 * FRACTIONS && self == nearest(k)
    }

    /// The number with its sign bit changed.
    pub open spec fn negated(self) -> Number {
        if self.negative() {
            Number { bits: (self.bits - SIGN_WEIGHT) as u64 }
        } else {
            Number { bits: (self.bits + SIGN_WEIGHT) as u64 }
        }
    }

    /// The number with its sign bit cleared.
    pub open spec fn absolute(self) -> Number {
        Number { bits: self.magnitude() as u64 }
    }

    /// The smaller of two numbers, a NaN giving way to the other operand.
    pub open spec fn smaller(self, other: Number) -> Number {
        if self.nan() || other.below(self) {
            other
        } else {
            self
        }
    }

    /// The larger of two numbers, a NaN giving way to the other operand.
    pub open spec fn larger(self, other: Number) -> Number {
        if self.nan() || self.below(other) {
            other
        } else {
            self
        }
    }

    /// Position in the total order of all bit patterns: negative NaNs first,
    /// positive NaNs last, `-0` just before `+0`.
    pub open spec fn total_rank(self) -> int {
        if self.negative() {
            -1 - self.magnitude()
        } else {
            self.magnitude() as int
        }
    }

    pub fn from_bits(bits: u64) -> (r: Number)
        ensures
            r.bits == bits,
    {
        Number { bits }
    }

    pub fn is_negative(&self) -> (r: bool)
        ensures
            r == self.negative(),
    {
        self.bits >= SIGN_WEIGHT
    }

    /// The pattern without its sign bit.
    fn magnitude_bits(&self) -> (r: u64)
        ensures
            r == self.magnitude(),
            r < SIGN_WEIGHT,
    {
        if self.bits >= SIGN_WEIGHT {
            self.bits - SIGN_WEIGHT
        } else {
            self.bits
        }
    }

    pub fn is_nan(&self) -> (r: bool)
        ensures
            r == self.nan(),
    {
        self.magnitude_bits() > INFINITE_MAGNITUDE
    }

    pub fn is_infinite(&self) -> (r: bool)
        ensures
            r == (!self.nan() && !self.finite()),
    {
        self.magnitude_bits() == INFINITE_MAGNITUDE
    }

    pub fn is_zero(&self) -> (r: bool)
        ensures
            r == self.zero(),
    {
        self.magnitude_bits() == 0
    }

    /// IEEE `==`.
    pub fn is_equal(&self, other: &Number) -> (r: bool)
        ensures
            r == self.equals(*other),
    {
        if self.is_nan() || other.is_nan() {
            false
        } else if self.is_zero() && other.is_zero() {
            true
        } else {
            self.bits == other.bits
        }
    }

    /// IEEE `<`.
    pub fn is_below(&self, other: &Number) -> (r: bool)
        ensures
            r == self.below(*other),
    {
        if self.is_nan() || other.is_nan() {
            return false;
        }
        let a = self.magnitude_bits();
        let b = other.magnitude_bits();
        if self.is_negative() {
            if other.is_negative() {
                a > b
            } else {
                a > 0 || b > 0
            }
        } else if other.is_negative() {
            false
        } else {
            a < b
        }
    }

    /// IEEE `<=`.
    pub fn is_at_most(&self, other: &Number) -> (r: bool)
        ensures
            r == self.at_most(*other),
    {
        self.is_below(other) || self.is_equal(other)
    }

    pub fn negate(&self) -> (r: Number)
        ensures
            r == self.negated(),
    {
        if self.bits >= SIGN_WEIGHT {
            Number { bits: self.bits - SIGN_WEIGHT }
        } else {
            Number { bits: self.bits + SIGN_WEIGHT }
        }
    }

    pub fn abs(&self) -> (r: Number)
        ensures
            r == self.absolute(),
    {
        Number { bits: self.magnitude_bits() }
    }

    pub fn min(&self, other: &Number) -> (r: Number)
        ensures
            r == self.smaller(*other),
    {
        if self.is_nan() || other.is_below(self) {
            *other
        } else {
            *self
        }
    }

    pub fn max(&self, other: &Number) -> (r: Number)
        ensures
            r == self.larger(*other),
    {
        if self.is_nan() || self.is_below(other) {
            *other
        } else {
            *self
        }
    }

    /// An integer that orders numbers as the total order does.
    pub fn total_key(&self) -> (r: i64)
        ensures
            r == self.total_rank(),
    {
        let m = self.magnitude_bits() as i64;
        if self.is_negative() {
            -1 - m
        } else {
            m
        }
    }

    /// The integer part of the absolute value, or `u64::MAX` where it is larger.
    fn whole_bits(&self) -> (r: u64)
        requires
            self.finite(),
        ensures
            r == clamp(self.whole_magnitude() as int, 0, u64::MAX as int),
    {
        let m = self.magnitude_bits();
        let exponent: u64 = m / FRACTIONS;
        let fraction: u64 = m % FRACTIONS;
        let significand: u64 = if exponent == 0 {
            fraction
        } else {
            FRACTIONS + fraction
        };
        proof {
            vstd::arithmetic::power2::lemma2_to64();
            vstd::arithmetic::power2::lemma2_to64_rest();
        }
        if exponent >= 1075 {
            let shift: u64 = exponent - 1075;
            if shift > 11 {
                proof {
                    vstd::arithmetic::power2::lemma_pow2_unfold(12);
                    if shift > 12 {
                        vstd::arithmetic::power2::lemma_pow2_strictly_increases(12, shift as nat);
                    }
                    assert(significand * two_to(shift as nat) >= 0x10_0000_0000_0000
                        * 0x1000) by (nonlinear_arith)
                        requires
                            significand >= 0x10_0000_0000_0000,
                            two_to(shift as nat) >= 0x1000,
                    ;
                }
                u64::MAX
            } else {
                let factor = power_of_two(shift);
                proof {
                    if shift < 11 {
                        vstd::arithmetic::power2::lemma_pow2_strictly_increases(shift as nat, 11);
                    }
                    assert(0 <= significand as u128 * factor <= 0x20_0000_0000_0000 * 0x800) by (nonlinear_arith)
                        requires
                            significand < 0x20_0000_0000_0000,
                            0 <= factor <= 0x800,
                    ;
                }
                let product: u128 = significand as u128 * factor;
                if product > u64::MAX as u128 {
                    u64::MAX
                } else {
                    product as u64
                }
            }
        } else {
            let shift: u64 = if exponent == 0 {
                1074
            } else {
                1075 - exponent
            };
            if shift > 53 {
                proof {
                    vstd::arithmetic::power2::lemma_pow2_strictly_increases(53, shift as nat);
                    vstd::arithmetic::div_mod::lemma_basic_div(significand as int, two_to(shift as nat) as int);
                }
                0
            } else {
                let divisor = power_of_two(shift);
                proof {
                    vstd::arithmetic::power2::lemma_pow2_pos(shift as nat);
                    vstd::arithmetic::div_mod::lemma_div_is_ordered_by_denominator(
                        significand as int,
                        1,
                        divisor as int,
                    );
                }
                (significand as u128 / divisor) as u64
            }
        }
    }

    /// Drops the fraction and saturates, as a cast to `i64` does.
    pub fn to_i64(&self) -> (r: i64)
        ensures
            r == self.saturated(i64::MIN as int, i64::MAX as int),
    {
        if self.is_nan() {
            0
        } else if self.is_infinite() {
            if self.is_negative() {
                i64::MIN
            } else {
                i64::MAX
            }
        } else {
            let w = self.whole_bits();
            if self.is_negative() {
                if w >= SIGN_WEIGHT {
                    i64::MIN
                } else {
                    -(w as i64)
                }
            } else if w >= SIGN_WEIGHT {
                i64::MAX
            } else {
                w as i64
            }
        }
    }

    /// The size of a number as an integer, what of a fraction is left, and the
    /// weight of that.
    fn split(&self) -> (r: (u64, u64, u128))
        requires
            self.divided(),
        ensures
            r.0 == self.significand() / self.divisor(),
            r.0 < 2 * FRACTIONS,
            r.1 != 0 <==> self.significand() % self.divisor() != 0,
            2 * r.1 >= r.2 <==> 2 * (self.significand() % self.divisor()) >= self.divisor(),
            r.1 < 2 * FRACTIONS,
    {
        let m = self.magnitude_bits();
        let exponent: u64 = m / FRACTIONS;
        let fraction: u64 = m % FRACTIONS;
        let significand: u64 = if exponent == 0 {
            fraction
        } else {
            FRACTIONS + fraction
        };
        let shift: u64 = if exponent == 0 {
            1074
        } else {
            1075 - exponent
        };
        proof {
            vstd::arithmetic::power2::lemma2_to64();
            vstd::arithmetic::power2::lemma2_to64_rest();
            assert(self.significand() == significand);
            assert(self.divisor() == two_to(shift as nat));
        }
        if shift > 54 {
            proof {
                vstd::arithmetic::power2::lemma_pow2_strictly_increases(54, shift as nat);
                vstd::arithmetic::div_mod::lemma_basic_div(
                    significand as int,
                    two_to(shift as nat) as int,
                );
                vstd::arithmetic::div_mod::lemma_small_mod(
                    significand as nat,
                    two_to(shift as nat),
                );
            }
            (0, significand, 0x40_0000_0000_0000)
        } else {
            let divisor = power_of_two(shift);
            let wide = significand as u128;
            proof {
                vstd::arithmetic::div_mod::lemma_div_is_ordered_by_denominator(
                    significand as int,
                    1,
                    divisor as int,
                );
                vstd::arithmetic::div_mod::lemma_mod_decreases(
                    significand as nat,
                    divisor as nat,
                );
            }
            ((wide / divisor) as u64, (wide % divisor) as u64, divisor)
        }
    }

    /// Makes a number of the same sign.
    fn resized(&self, k: u64) -> (r: Number)
        ensures
            r == self.with_size(k as nat),
    {
        let n = Number::from_u128(k as u128);
        if self.is_negative() {
            n.negate()
        } else {
            n
        }
    }

    fn may_divide(&self) -> (r: bool)
        ensures
            r == self.divided(),
    {
        let m = self.magnitude_bits();
        m < INFINITE_MAGNITUDE && m / FRACTIONS < 1075
    }

    /// Drops the fraction.
    pub fn trunc(&self) -> (r: Number)
        ensures
            r == self.truncated(),
    {
        if !self.may_divide() {
            return *self;
        }
        let (whole, _, _) = self.split();
        self.resized(whole)
    }

    /// Rounds to the nearest integer, halves away from zero.
    pub fn round(&self) -> (r: Number)
        ensures
            r == self.rounded(),
    {
        if !self.may_divide() {
            return *self;
        }
        let (whole, rest, weight) = self.split();
        if 2 * (rest as u128) >= weight {
            self.resized(whole + 1)
        } else {
            self.resized(whole)
        }
    }

    /// Rounds to the largest integer that is not above the number.
    pub fn floor(&self) -> (r: Number)
        ensures
            r == self.floored(),
    {
        if !self.may_divide() {
            return *self;
        }
        let (whole, rest, _) = self.split();
        if self.is_negative() && rest != 0 {
            self.resized(whole + 1)
        } else {
            self.resized(whole)
        }
    }

    /// The integer that a whole number is.
    pub fn to_whole(&self) -> (r: Option<i64>)
        ensures
            match r {
                Some(k) => self.whole() && k == self.saturated(i64::MIN as int, i64::MAX as int),
                None => !self.whole(),
            },
    {
        let k = self.to_i64();
        let limit: i64 = 0x20_0000_0000_0000;
        if -limit < k && k < limit && Number::from_i64(k).bits == self.bits {
            Some(k)
        } else {
            None
        }
    }

    /// Drops the fraction and saturates, as a cast to `u64` does.
    pub fn to_u64(&self) -> (r: u64)
        ensures
            r == self.saturated(0, u64::MAX as int),
    {
        if self.is_nan() || self.is_negative() {
            0
        } else if self.is_infinite() {
            u64::MAX
        } else {
            self.whole_bits()
        }
    }

    /// Drops the fraction and saturates, as a cast to `u32` does.
    pub fn to_u32(&self) -> (r: u32)
        ensures
            r == self.saturated(0, u32::MAX as int),
    {
        let w = self.to_u64();
        if w > u32::MAX as u64 {
            u32::MAX
        } else {
            w as u32
        }
    }

    /// The number as a machine-sized signed integer.
    pub fn to_isize(&self) -> (r: isize)
        ensures
            r == self.saturated(isize::MIN as int, isize::MAX as int),
    {
        let n = self.to_i64();
        if n < isize::MIN as i64 {
            isize::MIN
        } else if n > isize::MAX as i64 {
            isize::MAX
        } else {
            n as isize
        }
    }

    /// Drops the fraction and saturates, as a cast to `usize` does.
    pub fn to_usize(&self) -> (r: usize)
        ensures
            r == self.saturated(0, usize::MAX as int),
    {
        let w = self.to_u64();
        if w > usize::MAX as u64 {
            usize::MAX
        } else {
            w as usize
        }
    }

    /// The double nearest to an unsigned integer.
    pub fn from_u128(n: u128) -> (r: Number)
        ensures
            r == nearest(n as int),
    {
        if n == 0 {
            return Number { bits: 0 };
        }
        let mut rest: u128 = n;
        let mut len: u64 = 0;
        proof {
            lemma_u128_length(n);
        }
        while rest > 0
            invariant
                bit_length(n as nat) == len + bit_length(rest as nat),
                len + bit_length(rest as nat) <= 128,
            decreases rest,
        {
            rest = rest / 2;
            len = len + 1;
        }
        proof {
            lemma_bit_length_bounds(n as nat);
            vstd::arithmetic::power2::lemma2_to64();
            vstd::arithmetic::power2::lemma2_to64_rest();
        }
        if len <= 53 {
            let factor = power_of_two(53 - len);
            proof {
                lemma_significand(n as nat, len as nat);
            }
            let scaled: u128 = n * factor;
            let bits: u64 = (1021 + len) * FRACTIONS + scaled as u64;
            Number { bits }
        } else {
            let unit = power_of_two(len - 53);
            proof {
                lemma_quotient(n as nat, len as nat);
                vstd::arithmetic::power2::lemma_pow2_pos((len - 53) as nat);
                vstd::arithmetic::power2::lemma_pow2_unfold((len - 53) as nat);
            }
            let quotient: u128 = n / unit;
            let remainder: u128 = n % unit;
            let half: u128 = unit / 2;
            let up: u64 = if remainder > half || (remainder == half && quotient % 2 == 1) {
                1
            } else {
                0
            };
            let bits: u64 = (1021 + len) * FRACTIONS + quotient as u64 + up;
            Number { bits }
        }
    }

    /// The double nearest to a count.
    pub fn from_usize(n: usize) -> (r: Number)
        ensures
            r == nearest(n as int),
    {
        Number::from_u128(n as u128)
    }

    /// The double nearest to a signed integer.
    pub fn from_i64(n: i64) -> (r: Number)
        ensures
            r == nearest(n as int),
    {
        if n >= 0 {
            Number::from_u128(n as u128)
        } else {
            let m: u128 = (-(n as i128)) as u128;
            let r = Number::from_u128(m);
            proof {
                lemma_u128_length(m);
                lemma_nearest_bits_limit(m as nat);
            }
            r.negate()
        }
    }

    /// Positive infinity.
    pub fn infinity() -> (r: Number)
        ensures
            r.bits == INFINITE_MAGNITUDE,
    {
        Number { bits: INFINITE_MAGNITUDE }
    }

    /// Negative infinity.
    pub fn negative_infinity() -> (r: Number)
        ensures
            r == (Number { bits: INFINITE_MAGNITUDE }).negated(),
    {
        Number::infinity().negate()
    }

    /// A quiet NaN.
    pub fn not_a_number() -> (r: Number)
        ensures
            r == quiet_nan(),
    {
        Number { bits: 0x7FF8_0000_0000_0000 }
    }
}

/// The NaN that stands for a statistic without a value.
pub open spec fn quiet_nan() -> Number {
    Number { bits: 0x7FF8_0000_0000_0000 }
}

/// `2` to the power `e`, for the powers that fit.
fn power_of_two(e: u64) -> (r: u128)
    requires
        e < 128,
    ensures
        r == two_to(e as nat),
        r > 0,
{
    let mut r: u128 = 1;
    let mut i: u64 = 0;
    proof {
        vstd::arithmetic::power2::lemma2_to64();
    }
    while i < e
        invariant
            i <= e < 128,
            r == two_to(i as nat),
            r > 0,
        decreases e - i,
    {
        proof {
            vstd::arithmetic::power2::lemma_pow2_unfold((i + 1) as nat);
            lemma_power_limit((i + 1) as nat);
        }
        r = r * 2;
        i = i + 1;
    }
    r
}

proof fn lemma_power_limit(e: nat)
    requires
        e < 128,
    ensures
        two_to(e) <= u128::MAX,
{
    vstd::arithmetic::power2::lemma2_to64();
    vstd::arithmetic::power2::lemma2_to64_rest();
    if e < 127 {
        vstd::arithmetic::power2::lemma_pow2_strictly_increases(e, 127);
    }
    vstd::arithmetic::power2::lemma_pow2_adds(63, 64);
    assert(two_to(127) == two_to(63) * two_to(64));
    assert(0x8000_0000_0000_0000 * 0x1_0000_0000_0000_0000 <= u128::MAX);
}

/// A positive integer lies between two consecutive powers of two that its
/// length tells.
pub proof fn lemma_bit_length_bounds(n: nat)
    requires
        n > 0,
    ensures
        bit_length(n) > 0,
        two_to((bit_length(n) - 1) as nat) <= n < two_to(bit_length(n)),
    decreases n,
{
    vstd::arithmetic::power2::lemma2_to64();
    if n >= 2 {
        lemma_bit_length_bounds(n / 2);
        vstd::arithmetic::power2::lemma_pow2_unfold(bit_length(n));
        vstd::arithmetic::power2::lemma_pow2_unfold((bit_length(n) - 1) as nat);
    } else {
        assert(bit_length(1) == 1 + bit_length(0));
    }
}

/// An integer below a power of two is no longer than its exponent.
pub proof fn lemma_bit_length_limit(n: nat, e: nat)
    requires
        n < two_to(e),
    ensures
        bit_length(n) <= e,
{
    if n > 0 {
        lemma_bit_length_bounds(n);
        if bit_length(n) > e {
            let k = (bit_length(n) - 1) as nat;
            if e < k {
                vstd::arithmetic::power2::lemma_pow2_strictly_increases(e, k);
            }
        }
    }
}

proof fn lemma_u128_length(n: u128)
    ensures
        bit_length(n as nat) <= 128,
{
    vstd::arithmetic::power2::lemma2_to64();
    vstd::arithmetic::power2::lemma2_to64_rest();
    vstd::arithmetic::power2::lemma_pow2_adds(64, 64);
    assert(0x1_0000_0000_0000_0000 * 0x1_0000_0000_0000_0000 == u128::MAX + 1);
    lemma_bit_length_limit(n as nat, 128);
}

/// Scaling an integer of at most 53 digits gives a full significand.
pub proof fn lemma_significand(n: nat, len: nat)
    requires
        n > 0,
        len == bit_length(n),
        len <= 53,
    ensures
        FRACTIONS <= n * two_to((53 - len) as nat) < 2 * FRACTIONS,
{
    vstd::arithmetic::power2::lemma2_to64();
    vstd::arithmetic::power2::lemma2_to64_rest();
    lemma_bit_length_bounds(n);
    let low = two_to((len - 1) as nat);
    let high = two_to(len);
    let factor = two_to((53 - len) as nat);
    vstd::arithmetic::power2::lemma_pow2_pos((53 - len) as nat);
    vstd::arithmetic::power2::lemma_pow2_adds((len - 1) as nat, (53 - len) as nat);
    vstd::arithmetic::power2::lemma_pow2_adds(len, (53 - len) as nat);
    assert(low * factor <= n * factor < high * factor) by (nonlinear_arith)
        requires
            low <= n < high,
            factor > 0,
    ;
}

/// Dropping the digits past the 53rd leaves a full significand.
pub proof fn lemma_quotient(n: nat, len: nat)
    requires
        n > 0,
        len == bit_length(n),
        len > 53,
    ensures
        FRACTIONS <= n / two_to((len - 53) as nat) < 2 * FRACTIONS,
{
    vstd::arithmetic::power2::lemma2_to64();
    vstd::arithmetic::power2::lemma2_to64_rest();
    lemma_bit_length_bounds(n);
    let unit = two_to((len - 53) as nat);
    vstd::arithmetic::power2::lemma_pow2_pos((len - 53) as nat);
    vstd::arithmetic::power2::lemma_pow2_adds(52, (len - 53) as nat);
    vstd::arithmetic::power2::lemma_pow2_adds(53, (len - 53) as nat);
    assert(FRACTIONS as int <= n as int / unit as int && n as int / unit as int <= 2 * FRACTIONS - 1) by (nonlinear_arith)
        requires
            FRACTIONS * unit <= n,
            n < 2 * FRACTIONS * unit,
            unit > 0,
    ;
}

/// The patterns of the integers that fit 128 bits are those of finite numbers.
pub proof fn lemma_nearest_bits_limit(n: nat)
    requires
        bit_length(n) <= 128,
    ensures
        nearest_bits(n) < INFINITE_MAGNITUDE,
{
    if n > 0 {
        let len = bit_length(n);
        lemma_bit_length_bounds(n);
        if len <= 53 {
            lemma_significand(n, len);
        } else {
            lemma_quotient(n, len);
        }
        assert((1021 + len) * FRACTIONS <= 1149 * FRACTIONS) by (nonlinear_arith)
            requires
                len <= 128,
        ;
    }
}

/// An integer of at most 53 digits becomes a double whose integer part is that
/// integer: the conversion loses nothing.
pub proof fn law_small_integers_exact(n: int)
    requires
        -(2 * FRACTIONS) < n < 2 * FRACTIONS,
    ensures
        nearest(n).finite(),
        nearest(n).saturated(i64::MIN as int, i64::MAX as int) == n,
{
    let m: nat = if n < 0 {
        (-n) as nat
    } else {
        n as nat
    };
    vstd::arithmetic::power2::lemma2_to64();
    vstd::arithmetic::power2::lemma2_to64_rest();
    lemma_bit_length_limit(m, 53);
    lemma_nearest_bits_limit(m);
    let r = nearest(n);
    assert(r.magnitude() == nearest_bits(m));
    if m > 0 {
        let len = bit_length(m);
        lemma_significand(m, len);
        let scaled = m * two_to((53 - len) as nat);
        let unit = FRACTIONS as nat;
        assert((1021 + len) * unit + scaled == (1022 + len) * unit + (scaled - unit)) by (nonlinear_arith);
        vstd::arithmetic::div_mod::lemma_fundamental_div_mod_converse(
            nearest_bits(m) as int,
            unit as int,
            (1022 + len) as int,
            (scaled - unit) as int,
        );
        assert(r.exponent() == 1022 + len);
        assert(r.significand() == scaled);
        lemma_bit_length_bounds(m);
        vstd::arithmetic::power2::lemma_pow2_pos((53 - len) as nat);
        if len == 53 {
            assert(two_to(0) == 1);
        }
        vstd::arithmetic::div_mod::lemma_div_multiples_vanish(m as int, two_to((53 - len) as nat) as int);
        assert(two_to((53 - len) as nat) * m == scaled) by (nonlinear_arith)
            requires
                scaled == m * two_to((53 - len) as nat),
        ;
        assert(r.whole_magnitude() == m);
    } else {
        vstd::arithmetic::power2::lemma_pow2_pos(1074);
        assert(r.magnitude() == 0);
        assert(r.significand() == 0);
        assert(0int / two_to(1074) as int == 0) by (nonlinear_arith)
            requires
                two_to(1074) > 0,
        ;
    }
}

/// The total order tells all doubles apart, and of two numbers that are not NaN one
/// is smaller or they are equal; where one is smaller, it comes first in the total
/// order too.
pub proof fn law_order_is_total(a: Number, b: Number)
    ensures
        a.total_rank() == b.total_rank() <==> a == b,
        !a.nan() && !b.nan() ==> (a.below(b) || a.equals(b) || b.below(a)),
        a.below(b) ==> !b.at_most(a),
        a.below(b) ==> a.total_rank() < b.total_rank(),
{
}

/// A small integer has no fraction.
pub proof fn lemma_integer_parts(n: int)
    requires
        -(2 * FRACTIONS) < n < 2 * FRACTIONS,
    ensures
        ({
            let m: nat = if n < 0 {
                (-n) as nat
            } else {
                n as nat
            };
            let r = nearest(n);
            &&& r.magnitude() == nearest_bits(m)
            &&& r.negative() == (n < 0)
            &&& r.divided() ==> r.significand() / r.divisor() == m && r.significand()
                % r.divisor() == 0
            &&& r.divisor() > 0
        }),
{
    let m: nat = if n < 0 {
        (-n) as nat
    } else {
        n as nat
    };
    vstd::arithmetic::power2::lemma2_to64();
    vstd::arithmetic::power2::lemma2_to64_rest();
    lemma_bit_length_limit(m, 53);
    lemma_nearest_bits_limit(m);
    let r = nearest(n);
    assert(r.magnitude() == nearest_bits(m));
    if m > 0 {
        let len = bit_length(m);
        lemma_significand(m, len);
        let scaled = m * two_to((53 - len) as nat);
        let unit = FRACTIONS as nat;
        assert((1021 + len) * unit + scaled == (1022 + len) * unit + (scaled - unit)) by (nonlinear_arith);
        vstd::arithmetic::div_mod::lemma_fundamental_div_mod_converse(
            nearest_bits(m) as int,
            unit as int,
            (1022 + len) as int,
            (scaled - unit) as int,
        );
        assert(r.exponent() == 1022 + len);
        assert(r.significand() == scaled);
        let d = two_to((53 - len) as nat);
        vstd::arithmetic::power2::lemma_pow2_pos((53 - len) as nat);
        assert(r.divisor() == d);
        vstd::arithmetic::div_mod::lemma_div_multiples_vanish(m as int, d as int);
        vstd::arithmetic::div_mod::lemma_mod_multiples_basic(m as int, d as int);
        assert(d * m == scaled) by (nonlinear_arith)
            requires
                scaled == m * d,
        ;
    } else {
        vstd::arithmetic::power2::lemma_pow2_pos(1074);
        assert(r.magnitude() == 0);
        assert(r.significand() == 0);
        assert(0int / two_to(1074) as int == 0 && 0int % two_to(1074) as int == 0) by (nonlinear_arith)
            requires
                two_to(1074) > 0,
        ;
    }
}

/// A number that may have a fraction is less than 2 to the power 52.
proof fn lemma_size_below(n: Number)
    requires
        n.divided(),
    ensures
        0 <= n.significand() / n.divisor() < FRACTIONS,
{
    let k = if n.exponent() == 0 {
        1074nat
    } else {
        (1075 - n.exponent()) as nat
    };
    vstd::arithmetic::power2::lemma2_to64();
    vstd::arithmetic::power2::lemma_pow2_strictly_increases(0, k);
    vstd::arithmetic::div_mod::lemma_div_is_ordered_by_denominator(
        n.significand() as int,
        2,
        n.divisor() as int,
    );
    vstd::arithmetic::div_mod::lemma_div_pos_is_pos(n.significand() as int, n.divisor() as int);
}

proof fn lemma_rounded_size(n: Number) -> (k: nat)
    requires
        n.divided(),
    ensures
        n.rounded() == n.with_size(k),
        k <= FRACTIONS,
{
    lemma_size_below(n);
    let q = n.significand() / n.divisor();
    if 2 * (n.significand() % n.divisor()) >= n.divisor() {
        q + 1
    } else {
        q
    }
}

/// A number from 1 to 251 that was rounded is the double of its integer.
pub proof fn law_rounded_is_whole(n: Number)
    requires
        nearest(1).at_most(n.rounded()),
        n.rounded().at_most(nearest(251)),
    ensures
        n.rounded() == nearest(n.rounded().saturated(0, 255)),
{
    let r = n.rounded();
    lemma_small_range(r);
    law_small_integers_exact(1);
    law_small_integers_exact(251);
    vstd::arithmetic::power2::lemma2_to64();
    vstd::arithmetic::power2::lemma2_to64_rest();
    reveal_with_fuel(bit_length, 9);
    if !n.divided() {
        assert(nearest_bits(251) == 1030 * FRACTIONS as nat + 123 * two_to(45));
        assert(r.magnitude() < 1031 * FRACTIONS);
        assert(false);
    }
    let k = lemma_rounded_size(n);
    law_small_integers_exact(k as int);
}

/// A number from 1 to 251 keeps its integer part in that range.
pub proof fn lemma_small_range(c: Number)
    requires
        nearest(1).at_most(c),
        c.at_most(nearest(251)),
    ensures
        1 <= c.saturated(0, 255) <= 251,
{
    vstd::arithmetic::power2::lemma2_to64();
    vstd::arithmetic::power2::lemma2_to64_rest();
    reveal_with_fuel(bit_length, 9);
    let unit = FRACTIONS as nat;
    assert(bit_length(1) == 1);
    assert(bit_length(251) == 8);
    assert(nearest_bits(1) == 1023 * unit);
    assert(nearest_bits(251) == 1030 * unit + 123 * two_to(45));
    let m = c.magnitude();
    assert(1023 * unit <= m <= 1030 * unit + 123 * two_to(45));
    let e = c.exponent();
    let sig = c.significand();
    assert(1023 <= e <= 1030);
    assert(m == e * unit + m % unit) by {
        vstd::arithmetic::div_mod::lemma_fundamental_div_mod(m as int, unit as int);
        assert(unit * e == e * unit) by (nonlinear_arith);
    }
    assert(unit <= sig < 2 * unit);
    let k = (1075 - e) as nat;
    let d = two_to(k);
    assert(45 <= k <= 52);
    if e == 1030 {
        assert(k == 45);
        assert(sig <= 251 * two_to(45));
        assert(sig / d <= 251) by (nonlinear_arith)
            requires
                sig <= 251 * d,
                d > 0,
        ;
        assert(sig / d >= 1) by (nonlinear_arith)
            requires
                sig >= d,
                d > 0,
        ;
    } else {
        if k > 46 {
            vstd::arithmetic::power2::lemma_pow2_strictly_increases(46, k);
        }
        if k < 52 {
            vstd::arithmetic::power2::lemma_pow2_strictly_increases(k, 52);
        }
        assert(two_to(46) <= d <= two_to(52));
        assert(sig / d <= 251) by (nonlinear_arith)
            requires
                sig <= 128 * two_to(46),
                two_to(46) <= d,
                d > 0,
        ;
        assert(sig / d >= 1) by (nonlinear_arith)
            requires
                sig >= d,
                d > 0,
        ;
    }
}

} // verus!
