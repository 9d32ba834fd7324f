//! The two IEEE 754 binary formats, as bit patterns. A finite number of a
//! format is a whole multiple of the format's smallest subnormal, so its
//! value is told exactly by an integer count of such units.

use crate::scalar::Type;
use vstd::arithmetic::mul::*;
use vstd::arithmetic::power2::*;
use vstd::prelude::*;

verus! {

/// An IEEE 754 binary interchange format.
#[derive(Debug, Clone, Copy, PartialEq, Eq, Structural)]
pub enum Format {
    /// 1 sign bit, 8 exponent bits, 23 fraction bits.
    Binary32,
    /// 1 sign bit, 11 exponent bits, 52 fraction bits.
    Binary64,
}

/// The position of the highest set bit of `a`: the greatest `j` with
/// `2^j <= a`. Zero for `a == 0`.
pub open spec fn floor_log2(a: nat) -> nat
    decreases a,
{
    if a <= 1 {
        0
    } else {
        1 + floor_log2(a / 2)
    }
}

/// `m`, negated when `negative`.
pub open spec fn signed(negative: bool, m: int) -> int {
    if negative {
        -m
    } else {
        m
    }
}

impl Format {
    /// The format of a floating-point kind.
    pub open spec fn of(t: Type) -> Format {
        if t == Type::F32 {
            Format::Binary32
        } else {
            Format::Binary64
        }
    }

    /// Bits of the fraction field.
    pub open spec fn fraction_bits(self) -> nat {
        match self {
            Format::Binary32 => 23,
            Format::Binary64 => 52,
        }
    }

    /// The weight of the implicit leading bit of a normal number: 2 to the
    /// power of `fraction_bits`.
    pub open spec fn hidden(self) -> nat {
        match self {
            Format::Binary32 => 0x80_0000,
            Format::Binary64 => 0x10_0000_0000_0000,
        }
    }

    /// The exponent field of infinities and NaNs: all ones.
    pub open spec fn exponent_limit(self) -> nat {
        match self {
            Format::Binary32 => 255,
            Format::Binary64 => 2047,
        }
    }

    /// The exponent bias.
    pub open spec fn bias(self) -> nat {
        match self {
            Format::Binary32 => 127,
            Format::Binary64 => 1023,
        }
    }

    /// The weight of the sign bit.
    pub open spec fn sign_unit(self) -> nat {
        match self {
            Format::Binary32 => 0x8000_0000,
            Format::Binary64 => 0x8000_0000_0000_0000,
        }
    }

    /// The smallest positive number of the format is 2 to the power of minus
    /// this: `bias + fraction_bits - 1`.
    pub open spec fn unit_exponent(self) -> nat {
        match self {
            Format::Binary32 => 149,
            Format::Binary64 => 1074,
        }
    }

    /// The exponent field of a pattern.
    pub open spec fn exponent_field(self, bits: nat) -> nat {
        (bits / self.hidden()) % (self.exponent_limit() + 1)
    }

    /// The fraction field of a pattern.
    pub open spec fn fraction_field(self, bits: nat) -> nat {
        bits % self.hidden()
    }

    /// True when the sign bit of a pattern is set.
    pub open spec fn is_negative(self, bits: nat) -> bool {
        bits >= self.sign_unit()
    }

    /// True for zeros, subnormal and normal numbers.
    pub open spec fn is_finite(self, bits: nat) -> bool {
        self.exponent_field(bits) != self.exponent_limit()
    }

    /// True for the two infinities.
    pub open spec fn is_infinite(self, bits: nat) -> bool {
        self.exponent_field(bits) == self.exponent_limit() && self.fraction_field(bits) == 0
    }

    /// True for every NaN.
    pub open spec fn is_nan(self, bits: nat) -> bool {
        self.exponent_field(bits) == self.exponent_limit() && self.fraction_field(bits) != 0
    }

    /// The value of a finite pattern, counted in units of the format's
    /// smallest positive number, 2 to the power of minus `unit_exponent`.
    pub open spec fn units(self, bits: nat) -> int {
        let e = self.exponent_field(bits);
        let f = self.fraction_field(bits);
        let magnitude = if e == 0 {
            f as int
        } else {
            ((self.hidden() + f) * pow2((e - 1) as nat)) as int
        };
        signed(self.is_negative(bits), magnitude)
    }

    /// The pattern of the number `magnitude * 2^exponent`, negated when
    /// `negative`, where that number is zero or a normal number of the
    /// format and `magnitude` has no more bits than a significand holds.
    pub open spec fn of_scaled(self, negative: bool, magnitude: nat, exponent: int) -> nat {
        let sign = if negative {
            self.sign_unit()
        } else {
            0
        };
        if magnitude == 0 {
            sign
        } else {
            let j = floor_log2(magnitude);
            (sign + (self.bias() + j + exponent) * self.hidden() + (magnitude - pow2(j)) * pow2(
                (self.fraction_bits() - j) as nat,
            )) as nat
        }
    }

    /// What `of_scaled` asks of its arguments: the magnitude fits a
    /// significand, and the number is zero or in the normal range.
    pub open spec fn encodable(self, magnitude: nat, exponent: int) -> bool {
        &&& magnitude < 2 * self.hidden()
        &&& magnitude > 0 ==> 1 <= self.bias() + floor_log2(magnitude) + exponent
            < self.exponent_limit()
    }
}

/// The pattern of the binary64 number equal to a binary32 number. An
/// infinity stays an infinity of its sign, and a NaN becomes a quiet NaN with
/// the same sign and the same payload, moved to the top of the wider fraction.
pub open spec fn widen(bits: nat) -> nat {
    let e = Format::Binary32.exponent_field(bits);
    let f = Format::Binary32.fraction_field(bits);
    let negative = Format::Binary32.is_negative(bits);
    if e == 255 {
        let sign = if negative {
            Format::Binary64.sign_unit()
        } else {
            0
        };
        let quiet: nat = if f != 0 && f < 0x40_0000 {
            0x8_0000_0000_0000
        } else {
            0
        };
        sign + 2047 * Format::Binary64.hidden() + f * 0x2000_0000 + quiet
    } else if e == 0 {
        Format::Binary64.of_scaled(negative, f, -149)
    } else {
        Format::Binary64.of_scaled(negative, 0x80_0000 + f, e - 150)
    }
}

/// `floor_log2(a)` is the exponent of the power of two at or below `a`.
pub proof fn lemma_floor_log2_bounds(a: nat)
    requires
        a >= 1,
    ensures
        pow2(floor_log2(a)) <= a < pow2(floor_log2(a) + 1),
    decreases a,
{
    lemma2_to64();
    if a > 1 {
        lemma_floor_log2_bounds(a / 2);
        lemma_pow2_unfold(floor_log2(a));
        lemma_pow2_unfold(floor_log2(a) + 1);
    }
}

/// The power of two at or below `a` is unique.
pub proof fn lemma_floor_log2_unique(a: nat, j: nat)
    requires
        pow2(j) <= a < pow2(j + 1),
    ensures
        floor_log2(a) == j,
{
    lemma_pow2_pos(j);
    lemma_floor_log2_bounds(a);
    let k = floor_log2(a);
    if k < j {
        if k + 1 < j {
            lemma_pow2_strictly_increases(k + 1, j);
        }
    } else if j < k {
        if j + 1 < k {
            lemma_pow2_strictly_increases(j + 1, k);
        }
    }
}

/// Scaling commutes with negation.
pub proof fn lemma_signed_scales(negative: bool, m: int, c: int)
    ensures
        signed(negative, m) * c == signed(negative, m * c),
{
    assert((-m) * c == -(m * c)) by (nonlinear_arith);
}

/// Scaling by two powers of two in turn scales by the power of the sum.
pub proof fn lemma_scale_twice(a: nat, m: nat, n: nat)
    ensures
        a * pow2(m) * pow2(n) == a * pow2(m + n),
{
    lemma_pow2_adds(m, n);
    lemma_mul_is_associative(a as int, pow2(m) as int, pow2(n) as int);
}

/// A significand that fills its top bit tells the position of the highest
/// bit of the number it was scaled from.
proof fn lemma_normalised(a: nat, shift: nat, width: nat)
    requires
        a >= 1,
        pow2(width) <= a * pow2(shift) < 2 * pow2(width),
    ensures
        shift <= width,
        floor_log2(a) == width - shift,
        a * pow2(shift) - pow2(width) == (a - pow2(floor_log2(a))) * pow2(shift),
{
    lemma_pow2_pos(shift);
    lemma_pow2_pos(width);
    if shift > width {
        lemma_pow2_unfold(width + 1);
        if shift > width + 1 {
            lemma_pow2_strictly_increases(width + 1, shift);
        }
        lemma_mul_inequality(1, a as int, pow2(shift) as int);
        assert(false);
    }
    let j = (width - shift) as nat;
    lemma_pow2_adds(j, shift);
    lemma_pow2_adds(j + 1, shift);
    lemma_pow2_unfold(width + 1);
    assert(pow2(j) * pow2(shift) <= a * pow2(shift));
    lemma_mul_inequality_converse(pow2(j) as int, a as int, pow2(shift) as int);
    assert(a * pow2(shift) < pow2(j + 1) * pow2(shift));
    lemma_mul_strict_inequality_converse(a as int, pow2(j + 1) as int, pow2(shift) as int);
    lemma_floor_log2_unique(a, j);
    lemma_mul_is_distributive_sub_other_way(pow2(shift) as int, a as int, pow2(j) as int);
}

impl Format {
    /// The weight of the hidden bit is a power of two.
    pub proof fn lemma_hidden(self)
        ensures
            self.hidden() == pow2(self.fraction_bits()),
            self.sign_unit() == self.hidden() * (self.exponent_limit() + 1),
            self.unit_exponent() == self.bias() + self.fraction_bits() - 1,
    {
        lemma2_to64();
        lemma2_to64_rest();
    }

    /// What `of_scaled` gives is a finite pattern of the format with the
    /// sign asked for, and it counts exactly `magnitude * 2^exponent`, in
    /// units of 2 to the power of minus `unit_exponent`.
    pub proof fn lemma_of_scaled(self, negative: bool, magnitude: nat, exponent: int)
        requires
            self.encodable(magnitude, exponent),
        ensures
            self.of_scaled(negative, magnitude, exponent) < 2 * self.sign_unit(),
            self.is_finite(self.of_scaled(negative, magnitude, exponent)),
            self.is_negative(self.of_scaled(negative, magnitude, exponent)) == negative,
            magnitude > 0 ==> self.unit_exponent() + exponent >= 0,
            magnitude > 0 ==> self.units(self.of_scaled(negative, magnitude, exponent)) == signed(
                negative,
                (magnitude * pow2((self.unit_exponent() + exponent) as nat)) as int,
            ),
            magnitude == 0 ==> self.units(self.of_scaled(negative, magnitude, exponent)) == 0,
    {
        let bits = self.of_scaled(negative, magnitude, exponent);
        let sign: nat = if negative {
            self.sign_unit()
        } else {
            0
        };
        self.lemma_hidden();
        if magnitude > 0 {
            let j = floor_log2(magnitude);
            let shift = (self.fraction_bits() - j) as nat;
            let field = (self.bias() + j + exponent) as nat;
            let fraction = ((magnitude - pow2(j)) * pow2(shift)) as nat;
            lemma_floor_log2_bounds(magnitude);
            if j > self.fraction_bits() {
                lemma_pow2_unfold(self.fraction_bits() + 1);
                if j > self.fraction_bits() + 1 {
                    lemma_pow2_strictly_increases(self.fraction_bits() + 1, j);
                }
                assert(false);
            }
            lemma_pow2_adds(j, shift);
            lemma_pow2_adds(j + 1, shift);
            lemma_pow2_unfold(self.fraction_bits() + 1);
            lemma_pow2_pos(shift);
            lemma_mul_is_distributive_sub_other_way(
                pow2(shift) as int,
                magnitude as int,
                pow2(j) as int,
            );
            lemma_mul_inequality(pow2(j) as int, magnitude as int, pow2(shift) as int);
            lemma_mul_strict_inequality(magnitude as int, pow2(j + 1) as int, pow2(shift) as int);
            assert(fraction == magnitude * pow2(shift) - self.hidden());
            assert(fraction < self.hidden());
            assert(bits == sign + field * self.hidden() + fraction);
            self.lemma_fields(negative, field, fraction);
            assert(self.hidden() + fraction == magnitude * pow2(shift));
            lemma_scale_twice(magnitude, shift, (field - 1) as nat);
        } else {
            self.lemma_fields(negative, 0, 0);
        }
    }

    /// The fields of a pattern put together from a sign, an exponent field
    /// and a fraction field are those three.
    pub proof fn lemma_fields(self, negative: bool, field: nat, fraction: nat)
        requires
            field <= self.exponent_limit(),
            fraction < self.hidden(),
        ensures
            ({
                let bits = (if negative {
                    self.sign_unit()
                } else {
                    0
                }) + field * self.hidden() + fraction;
                &&& bits < 2 * self.sign_unit()
                &&& self.exponent_field(bits) == field
                &&& self.fraction_field(bits) == fraction
                &&& self.is_negative(bits) == negative
            }),
    {
        let sign: nat = if negative {
            self.sign_unit()
        } else {
            0
        };
        let bits = sign + field * self.hidden() + fraction;
        match self {
            Format::Binary32 => {
                assert(field * self.hidden() == field * 0x80_0000);
                assert(bits / self.hidden() == bits / 0x80_0000);
                assert(bits % self.hidden() == bits % 0x80_0000);
                assert((bits / 0x80_0000) % (self.exponent_limit() + 1) == (bits / 0x80_0000)
                    % 256);
            },
            Format::Binary64 => {
                assert(field * self.hidden() == field * 0x10_0000_0000_0000);
                assert(bits / self.hidden() == bits / 0x10_0000_0000_0000);
                assert(bits % self.hidden() == bits % 0x10_0000_0000_0000);
                assert((bits / 0x10_0000_0000_0000) % (self.exponent_limit() + 1) == (bits
                    / 0x10_0000_0000_0000) % 2048);
            },
        }
    }

    /// Doubles `sig` `step` times where the result stays below `top`.
    fn lift(sig: u64, shift: u32, factor: u64, step: u32, top: u64, Ghost(a): Ghost<nat>) -> (r: (
        u64,
        u32,
    ))
        requires
            1 <= sig < top,
            top <= 0x20_0000_0000_0000,
            factor == pow2(step as nat),
            factor <= 0x1_0000_0000,
            shift + step <= 64,
            sig * factor * factor >= top,
            sig == a * pow2(shift as nat),
        ensures
            1 <= r.0 < top,
            r.0 * factor >= top,
            r.0 == a * pow2(r.1 as nat),
            r.1 == shift || r.1 == shift + step,
    {
        assert(sig * factor <= 0x20_0000_0000_0000 * 0x1_0000_0000) by (nonlinear_arith)
            requires
                sig <= 0x20_0000_0000_0000,
                factor <= 0x1_0000_0000,
        ;
        if (sig as u128) * (factor as u128) < top as u128 {
            proof {
                lemma_scale_twice(a, shift as nat, step as nat);
                lemma_pow2_pos(step as nat);
                lemma_mul_inequality(1, factor as int, sig as int);
            }
            (sig * factor, shift + step)
        } else {
            (sig, shift)
        }
    }

    /// Scales a nonzero magnitude by the power of two that brings its
    /// highest bit to the place of the hidden bit, and tells that power.
    fn normalise(self, magnitude: u64) -> (r: (u64, u32))
        requires
            1 <= magnitude < 2 * self.hidden(),
        ensures
            self.hidden() <= r.0 < 2 * self.hidden(),
            r.0 == magnitude * pow2(r.1 as nat),
            r.1 <= self.fraction_bits(),
            floor_log2(magnitude as nat) == self.fraction_bits() - r.1,
            r.0 - self.hidden() == (magnitude - pow2(floor_log2(magnitude as nat))) * pow2(
                r.1 as nat,
            ),
    {
        let top: u64 = match self {
            Format::Binary32 => 0x100_0000,
            Format::Binary64 => 0x20_0000_0000_0000,
        };
        let ghost a = magnitude as nat;
        proof {
            lemma2_to64();
            assert(a * pow2(0) == a) by (nonlinear_arith)
                requires
                    pow2(0) == 1,
            ;
        }
        let r = Format::lift(magnitude, 0, 0x1_0000_0000, 32, top, Ghost(a));
        let r = Format::lift(r.0, r.1, 0x1_0000, 16, top, Ghost(a));
        let r = Format::lift(r.0, r.1, 0x100, 8, top, Ghost(a));
        let r = Format::lift(r.0, r.1, 0x10, 4, top, Ghost(a));
        let r = Format::lift(r.0, r.1, 4, 2, top, Ghost(a));
        let r = Format::lift(r.0, r.1, 2, 1, top, Ghost(a));
        proof {
            self.lemma_hidden();
            lemma_normalised(a, r.1 as nat, self.fraction_bits());
        }
        r
    }

    /// Builds the pattern of `magnitude * 2^exponent`, negated when
    /// `negative`.
    pub fn encode(self, negative: bool, magnitude: u64, exponent: i64) -> (bits: u64)
        requires
            self.encodable(magnitude as nat, exponent as int),
        ensures
            bits == self.of_scaled(negative, magnitude as nat, exponent as int),
    {
        let sign: u64 = if !negative {
            0
        } else {
            match self {
                Format::Binary32 => 0x8000_0000,
                Format::Binary64 => 0x8000_0000_0000_0000,
            }
        };
        if magnitude == 0 {
            return sign;
        }
        let (sig, shift) = self.normalise(magnitude);
        match self {
            Format::Binary32 => {
                let field: i64 = 150 - (shift as i64) + exponent;
                sign + (field as u64) * 0x80_0000 + (sig - 0x80_0000)
            },
            Format::Binary64 => {
                let field: i64 = 1075 - (shift as i64) + exponent;
                sign + (field as u64) * 0x10_0000_0000_0000 + (sig - 0x10_0000_0000_0000)
            },
        }
    }
}

/// Converts a binary32 pattern to the binary64 pattern of the same number.
pub fn widen_bits(bits: u32) -> (wide: u64)
    ensures
        wide == widen(bits as nat),
{
    let f: u64 = (bits % 0x80_0000) as u64;
    let e: u64 = ((bits / 0x80_0000) % 256) as u64;
    let negative = bits >= 0x8000_0000;
    if e == 255 {
        let sign: u64 = if negative {
            0x8000_0000_0000_0000
        } else {
            0
        };
        let quiet: u64 = if f != 0 && f < 0x40_0000 {
            0x8_0000_0000_0000
        } else {
            0
        };
        sign + 2047 * 0x10_0000_0000_0000 + f * 0x2000_0000 + quiet
    } else if e == 0 {
        proof {
            lemma2_to64();
            if f > 0 {
                lemma_small_log2(f as nat, 23);
            }
        }
        Format::Binary64.encode(negative, f, -149)
    } else {
        proof {
            lemma2_to64();
            lemma_floor_log2_unique((0x80_0000 + f) as nat, 23);
        }
        Format::Binary64.encode(negative, 0x80_0000 + f, e as i64 - 150)
    }
}

/// A number below `2^n` has its highest bit below position `n`.
pub proof fn lemma_small_log2(a: nat, n: nat)
    requires
        1 <= a < pow2(n),
    ensures
        floor_log2(a) < n,
{
    lemma_floor_log2_bounds(a);
    let j = floor_log2(a);
    if j > n {
        lemma_pow2_strictly_increases(n, j);
    }
}

/// Widening keeps the number: a finite binary32 pattern becomes a finite
/// binary64 pattern of the same sign that counts the same value (one unit of
/// binary32 is `2^925` units of binary64), an infinity stays an infinity of
/// its sign, and a NaN stays a NaN.
pub proof fn lemma_widen_exact(bits: nat)
    requires
        bits < 0x1_0000_0000,
    ensures
        widen(bits) < 0x1_0000_0000_0000_0000,
        Format::Binary64.is_negative(widen(bits)) == Format::Binary32.is_negative(bits),
        Format::Binary32.is_finite(bits) ==> Format::Binary64.is_finite(widen(bits))
            && Format::Binary64.units(widen(bits)) == Format::Binary32.units(bits) * pow2(925),
        Format::Binary32.is_infinite(bits) ==> Format::Binary64.is_infinite(widen(bits)),
        Format::Binary32.is_nan(bits) ==> Format::Binary64.is_nan(widen(bits)),
{
    let e = Format::Binary32.exponent_field(bits);
    let f = Format::Binary32.fraction_field(bits);
    let negative = Format::Binary32.is_negative(bits);
    lemma2_to64();
    if e == 255 {
        let quiet: nat = if f != 0 && f < 0x40_0000 {
            0x8_0000_0000_0000
        } else {
            0
        };
        Format::Binary64.lemma_fields(negative, 2047, f * 0x2000_0000 + quiet);
    } else if e == 0 {
        if f > 0 {
            lemma_small_log2(f, 23);
        }
        Format::Binary64.lemma_of_scaled(negative, f, -149);
        lemma_signed_scales(negative, f as int, pow2(925) as int);
    } else {
        let m = (0x80_0000 + f) as nat;
        lemma_floor_log2_unique(m, 23);
        Format::Binary64.lemma_of_scaled(negative, m, e - 150);
        lemma_scale_twice(m, (e - 1) as nat, 925);
        lemma_signed_scales(negative, (m * pow2((e - 1) as nat)) as int, pow2(925) as int);
    }
}

} // verus!
