//! Non-negative double-precision values held exactly, and the pixel counts that
//! they yield.
//!
//! A calibration value such as `0.145` is a double-precision number: the
//! nearest one to 145 thousandths. [`Double`] holds it as a whole count of
//! units of two to the power of minus 84, so that products and differences are
//! rounded on whole numbers exactly as double precision rounds them.
use crate::rounding;
use vstd::prelude::*;

verus! {

/// Units in the number one: two to the power of 84.
pub const UNITS_PER_ONE: u128 = 19342813113834066795298816;

/// Units in the largest value that a [`Double`] holds, 512.
pub const MAX_UNITS: u128 = 9903520314283042199192993792;

/// Largest magnitude of an extent that is scaled: two to the power of 32.
pub const MAX_EXTENT: i64 = 4294967296;

/// Two to the power of 52, the weight of the leading bit of a significand.
pub const LEADING_BIT: u64 = 4503599627370496;

/// Exponent field of a double whose significand counts whole units.
pub const UNIT_EXPONENT: u64 = 991;

/// A non-negative double-precision value of at most 512 that is a multiple of
/// two to the power of minus 84.
#[derive(Clone, Copy, Debug, PartialEq, Eq)]
pub struct Double {
    units: u128,
}

impl View for Double {
    type V = nat;

    /// The value in units of two to the power of minus 84.
    closed spec fn view(&self) -> nat {
        self.units as nat
    }
}

/// Units of the double-precision number nearest to `thousandths / 1000`.
pub open spec fn thousandths_units(thousandths: nat) -> nat {
    rounding::nearest(thousandths * (UNITS_PER_ONE as nat), 1000, rounding::DOUBLE_BITS as nat)
}

/// `bits` is the interchange format of the non-negative number of `units`: a
/// sign bit of zero, eleven bits of exponent, 52 bits of fraction.
pub open spec fn encodes(bits: u64, units: nat) -> bool {
    let exponent = (bits / LEADING_BIT) as nat;
    let fraction = (bits % LEADING_BIT) as nat;
    if exponent == 0 {
        fraction == units * vstd::arithmetic::power2::pow2((UNIT_EXPONENT - 1) as nat)
    } else {
        &&& exponent < 2047
        &&& (fraction + LEADING_BIT) * vstd::arithmetic::power2::pow2(exponent) == units
            * vstd::arithmetic::power2::pow2(UNIT_EXPONENT as nat)
    }
}

/// The double-precision difference `a - b`, in units.
pub open spec fn rounded_difference(a: nat, b: nat) -> int {
    if a >= b {
        rounding::nearest((a - b) as nat, 1, rounding::DOUBLE_BITS as nat) as int
    } else {
        -(rounding::nearest((b - a) as nat, 1, rounding::DOUBLE_BITS as nat) as int)
    }
}

/// The nearest value of a 32-bit signed integer.
pub open spec fn clamp_to_i32(n: int) -> int {
    if n > i32::MAX {
        i32::MAX as int
    } else if n < i32::MIN {
        i32::MIN as int
    } else {
        n
    }
}

pub open spec fn magnitude(n: int) -> nat {
    if n < 0 {
        (-n) as nat
    } else {
        n as nat
    }
}

/// The double-precision product of a whole `extent` and a number of `units`,
/// cut to a 32-bit whole number towards zero.
pub open spec fn scaled(extent: int, units: int) -> int {
    let product = extent * units;
    let size = rounding::nearest(magnitude(product), 1, rounding::DOUBLE_BITS as nat)
        / (UNITS_PER_ONE as nat);
    clamp_to_i32(
        if product < 0 {
            -(size as int)
        } else {
            size as int
        },
    )
}

/// The double-precision quotient `num / den` is at least the number of `units`.
pub open spec fn quotient_reaches(num: int, den: int, units: nat) -> bool {
    if den == 0 {
        num > 0
    } else if num != 0 && (num < 0) != (den < 0) {
        false
    } else {
        rounding::nearest(
            magnitude(num) * (UNITS_PER_ONE as nat),
            magnitude(den),
            rounding::DOUBLE_BITS as nat,
        ) >= units
    }
}

impl Double {
    #[verifier::type_invariant]
    spec fn in_range(self) -> bool {
        self.units <= MAX_UNITS
    }

    /// The double-precision number nearest to `thousandths / 1000`.
    pub fn thousandths(thousandths: u32) -> (r: Double)
        requires
            thousandths < 256000,
        ensures
            r@ == thousandths_units(thousandths as nat),
    {
        let units: u128 = rounding::round_quotient(
            thousandths as u128 * UNITS_PER_ONE,
            1000,
            rounding::DOUBLE_BITS,
        );
        Double { units }
    }

    /// Decodes the interchange format of a double-precision number; `None` when
    /// it is not a non-negative multiple of a unit of at most 512.
    pub fn from_bits(bits: u64) -> (r: Option<Double>)
        ensures
            match r {
                Some(d) => encodes(bits, d@) && d@ <= MAX_UNITS,
                None => forall|units: nat|
                    units <= MAX_UNITS ==> !#[trigger] encodes(bits, units),
            },
    {
        let exponent: u64 = bits / LEADING_BIT;
        let fraction: u64 = bits % LEADING_BIT;
        if exponent == 0 {
            proof {
                lemma_no_small_units(fraction as nat);
            }
            if fraction == 0 {
                assert(encodes(bits, 0)) by {
                    assert(0 * vstd::arithmetic::power2::pow2((UNIT_EXPONENT - 1) as nat) == 0);
                }
                return Some(Double { units: 0 });
            }
            return None;
        }
        if exponent >= 2047 {
            return None;
        }
        let start: u128 = fraction as u128 + LEADING_BIT as u128;
        if exponent >= UNIT_EXPONENT {
            let shift: u64 = exponent - UNIT_EXPONENT;
            Self::from_coarse(bits, start, shift)
        } else {
            let shift: u64 = UNIT_EXPONENT - exponent;
            Self::from_fine(bits, start, shift)
        }
    }

    /// Decodes a number whose significand counts `2^shift` units.
    fn from_coarse(bits: u64, start: u128, shift: u64) -> (r: Option<Double>)
        requires
            bits / LEADING_BIT == UNIT_EXPONENT + shift,
            bits / LEADING_BIT < 2047,
            start == bits % LEADING_BIT + LEADING_BIT,
        ensures
            match r {
                Some(d) => encodes(bits, d@) && d@ <= MAX_UNITS,
                None => forall|units: nat|
                    units <= MAX_UNITS ==> !#[trigger] encodes(bits, units),
            },
    {
        let mut units: u128 = start;
        let mut done: u64 = 0;
        proof {
            vstd::arithmetic::power2::lemma2_to64();
        }
        while done < shift
            invariant
                done <= shift,
                bits / LEADING_BIT == UNIT_EXPONENT + shift,
                bits / LEADING_BIT < 2047,
                start == bits % LEADING_BIT + LEADING_BIT,
                units == start * vstd::arithmetic::power2::pow2(done as nat),
                units <= MAX_UNITS,
            decreases shift - done,
        {
            proof {
                vstd::arithmetic::power2::lemma_pow2_unfold((done + 1) as nat);
                let p = vstd::arithmetic::power2::pow2(done as nat);
                assert(start * (2 * p) == 2 * (start * p)) by (nonlinear_arith);
            }
            if units * 2 > MAX_UNITS {
                proof {
                    assert forall|other: nat| other <= MAX_UNITS implies !#[trigger] encodes(
                        bits,
                        other,
                    ) by {
                        if encodes(bits, other) {
                            lemma_coarse_units(bits, other, start as nat, shift as nat);
                            let p = vstd::arithmetic::power2::pow2((done + 1) as nat);
                            let rest = (shift - done - 1) as nat;
                            vstd::arithmetic::power2::lemma_pow2_adds((done + 1) as nat, rest);
                            vstd::arithmetic::power2::lemma_pow2_pos(rest);
                            let pr = vstd::arithmetic::power2::pow2(rest);
                            assert(start * (p * pr) >= start * p) by (nonlinear_arith)
                                requires
                                    pr >= 1,
                            ;
                        }
                    }
                }
                return None;
            }
            units = units * 2;
            done = done + 1;
        }
        proof {
            vstd::arithmetic::power2::lemma_pow2_adds(shift as nat, UNIT_EXPONENT as nat);
            let ps = vstd::arithmetic::power2::pow2(shift as nat);
            let pe = vstd::arithmetic::power2::pow2(UNIT_EXPONENT as nat);
            assert(start * (ps * pe) == (start * ps) * pe) by (nonlinear_arith);
            assert(encodes(bits, units as nat));
        }
        Some(Double { units })
    }

    /// Decodes a number whose significand counts `2^-shift` units.
    fn from_fine(bits: u64, start: u128, shift: u64) -> (r: Option<Double>)
        requires
            0 < shift < UNIT_EXPONENT,
            bits / LEADING_BIT == UNIT_EXPONENT - shift,
            start == bits % LEADING_BIT + LEADING_BIT,
        ensures
            match r {
                Some(d) => encodes(bits, d@) && d@ <= MAX_UNITS,
                None => forall|units: nat|
                    units <= MAX_UNITS ==> !#[trigger] encodes(bits, units),
            },
    {
        let mut units: u128 = start;
        let mut done: u64 = 0;
        proof {
            vstd::arithmetic::power2::lemma2_to64();
        }
        while done < shift
            invariant
                done <= shift,
                0 < shift < UNIT_EXPONENT,
                bits / LEADING_BIT == UNIT_EXPONENT - shift,
                start == bits % LEADING_BIT + LEADING_BIT,
                start == units * vstd::arithmetic::power2::pow2(done as nat),
                units <= start,
            decreases shift - done,
        {
            if units % 2 == 1 {
                proof {
                    assert forall|other: nat| other <= MAX_UNITS implies !#[trigger] encodes(
                        bits,
                        other,
                    ) by {
                        if encodes(bits, other) {
                            lemma_fine_units(bits, other, start as nat, shift as nat);
                            lemma_odd_is_last(
                                units as nat,
                                other,
                                done as nat,
                                (shift - done) as nat,
                            );
                        }
                    }
                }
                return None;
            }
            proof {
                vstd::arithmetic::power2::lemma_pow2_unfold((done + 1) as nat);
                let p = vstd::arithmetic::power2::pow2(done as nat);
                let half = units / 2;
                assert(half * (2 * p) == (2 * half) * p) by (nonlinear_arith);
            }
            units = units / 2;
            done = done + 1;
        }
        proof {
            let e = (UNIT_EXPONENT - shift) as nat;
            vstd::arithmetic::power2::lemma_pow2_adds(shift as nat, e);
            let ps = vstd::arithmetic::power2::pow2(shift as nat);
            let pe = vstd::arithmetic::power2::pow2(e);
            assert((units * ps) * pe == units * (ps * pe)) by (nonlinear_arith);
            assert(encodes(bits, units as nat));
        }
        Some(Double { units })
    }

    /// The value in units of two to the power of minus 84.
    pub fn units(&self) -> (r: u128)
        ensures
            r == self@,
    {
        self.units
    }

    /// The share of `extent` that this value is, in whole pixels.
    pub fn of(&self, extent: i64) -> (r: i32)
        requires
            -MAX_EXTENT <= extent <= MAX_EXTENT,
        ensures
            r == scaled(extent as int, self@ as int),
    {
        proof {
            use_type_invariant(self);
        }
        scale(extent, self.units, false)
    }

    /// The share of `extent` between `self` and `end`, in whole pixels.
    pub fn span_of(&self, end: &Double, extent: i64) -> (r: i32)
        requires
            -MAX_EXTENT <= extent <= MAX_EXTENT,
        ensures
            r == scaled(extent as int, rounded_difference(end@, self@)),
    {
        proof {
            use_type_invariant(self);
            use_type_invariant(end);
        }
        if end.units >= self.units {
            let size: u128 = rounding::round_quotient(
                end.units - self.units,
                1,
                rounding::DOUBLE_BITS,
            );
            scale(extent, size, false)
        } else {
            let size: u128 = rounding::round_quotient(
                self.units - end.units,
                1,
                rounding::DOUBLE_BITS,
            );
            scale(extent, size, true)
        }
    }

    /// Whether the quotient `num / den` is at least this value.
    pub fn reached_by(&self, num: i32, den: i32) -> (r: bool)
        ensures
            r == quotient_reaches(num as int, den as int, self@),
    {
        if den == 0 {
            return num > 0;
        }
        if num != 0 && (num < 0) != (den < 0) {
            return false;
        }
        let top: u128 = if num < 0 {
            (-(num as i64)) as u128
        } else {
            num as u128
        };
        let bottom: u128 = if den < 0 {
            (-(den as i64)) as u128
        } else {
            den as u128
        };
        rounding::round_quotient(top * UNITS_PER_ONE, bottom, rounding::DOUBLE_BITS) >= self.units
    }

    /// Whether this value and `other` lie more than `whole` apart.
    pub fn differs_by_more_than(&self, other: &Double, whole: u32) -> (r: bool)
        ensures
            r == (magnitude(rounded_difference(self@, other@)) > whole * UNITS_PER_ONE),
    {
        proof {
            use_type_invariant(self);
            use_type_invariant(other);
        }
        let gap: u128 = if self.units >= other.units {
            self.units - other.units
        } else {
            other.units - self.units
        };
        rounding::round_quotient(gap, 1, rounding::DOUBLE_BITS) > whole as u128 * UNITS_PER_ONE
    }
}

/// The double-precision product of `extent` and `units`, negated on demand and
/// cut to a 32-bit whole number.
fn scale(extent: i64, units: u128, negative: bool) -> (r: i32)
    requires
        -MAX_EXTENT <= extent <= MAX_EXTENT,
        units <= 2 * MAX_UNITS + 1,
    ensures
        r == scaled(
            extent as int,
            if negative {
                -(units as int)
            } else {
                units as int
            },
        ),
{
    let size: u128 = if extent < 0 {
        (-extent) as u128
    } else {
        extent as u128
    };
    assert(size * units <= 4294967296 * (2 * MAX_UNITS + 1)) by (nonlinear_arith)
        requires
            size <= 4294967296,
            units <= 2 * MAX_UNITS + 1,
    ;
    let product: u128 = size * units;
    let ghost signed: int = if negative {
        -(units as int)
    } else {
        units as int
    };
    assert(product == magnitude(extent * signed)) by (nonlinear_arith)
        requires
            product == size * units,
            size == (if extent < 0 {
                -extent
            } else {
                extent as int
            }),
            signed == (if negative {
                -(units as int)
            } else {
                units as int
            }),
    ;
    assert((extent * signed < 0) == (product != 0 && (extent < 0) != negative)) by (nonlinear_arith)
        requires
            product == size * units,
            size == (if extent < 0 {
                -extent
            } else {
                extent as int
            }),
            signed == (if negative {
                -(units as int)
            } else {
                units as int
            }),
    ;
    let rounded: u128 = rounding::round_quotient(product, 1, rounding::DOUBLE_BITS);
    let whole: u128 = rounded / UNITS_PER_ONE;
    if product != 0 && (extent < 0) != negative {
        if whole > 2147483648 {
            i32::MIN
        } else {
            (-(whole as i64)) as i32
        }
    } else if whole > 2147483647 {
        i32::MAX
    } else {
        whole as i32
    }
}

/// A fraction without a leading bit counts whole units only when it is zero.
proof fn lemma_no_small_units(fraction: nat)
    requires
        fraction < LEADING_BIT,
    ensures
        forall|units: nat|
            fraction == #[trigger] (units * vstd::arithmetic::power2::pow2(
                (UNIT_EXPONENT - 1) as nat,
            )) ==> fraction == 0,
{
    vstd::arithmetic::power2::lemma2_to64_rest();
    vstd::arithmetic::power2::lemma_pow2_strictly_increases(52, (UNIT_EXPONENT - 1) as nat);
    assert forall|units: nat|
        fraction == #[trigger] (units * vstd::arithmetic::power2::pow2(
            (UNIT_EXPONENT - 1) as nat,
        )) implies fraction == 0 by {
        let p = vstd::arithmetic::power2::pow2((UNIT_EXPONENT - 1) as nat);
        assert(units > 0 ==> units * p >= p) by (nonlinear_arith);
    }
}

proof fn lemma_coarse_units(bits: u64, units: nat, start: nat, shift: nat)
    requires
        encodes(bits, units),
        bits / LEADING_BIT == UNIT_EXPONENT + shift,
        start == bits % LEADING_BIT + LEADING_BIT,
    ensures
        units == start * vstd::arithmetic::power2::pow2(shift),
{
    vstd::arithmetic::power2::lemma_pow2_adds(shift, UNIT_EXPONENT as nat);
    let ps = vstd::arithmetic::power2::pow2(shift);
    let pe = vstd::arithmetic::power2::pow2(UNIT_EXPONENT as nat);
    vstd::arithmetic::power2::lemma_pow2_pos(UNIT_EXPONENT as nat);
    assert(start * (ps * pe) == (start * ps) * pe) by (nonlinear_arith);
    assert(units == start * ps) by (nonlinear_arith)
        requires
            units * pe == (start * ps) * pe,
            pe > 0,
    ;
}

proof fn lemma_fine_units(bits: u64, units: nat, start: nat, shift: nat)
    requires
        encodes(bits, units),
        shift < UNIT_EXPONENT,
        bits / LEADING_BIT == UNIT_EXPONENT - shift,
        start == bits % LEADING_BIT + LEADING_BIT,
    ensures
        start == units * vstd::arithmetic::power2::pow2(shift),
{
    let e = (UNIT_EXPONENT - shift) as nat;
    vstd::arithmetic::power2::lemma_pow2_adds(shift, e);
    let ps = vstd::arithmetic::power2::pow2(shift);
    let pe = vstd::arithmetic::power2::pow2(e);
    vstd::arithmetic::power2::lemma_pow2_pos(e);
    assert(units * (ps * pe) == (units * ps) * pe) by (nonlinear_arith);
    assert(start == units * ps) by (nonlinear_arith)
        requires
            start * pe == (units * ps) * pe,
            pe > 0,
    ;
}

/// An odd number times a power of two is no multiple of a higher power.
proof fn lemma_odd_is_last(odd: nat, units: nat, done: nat, left: nat)
    requires
        odd % 2 == 1,
        left > 0,
    ensures
        odd * vstd::arithmetic::power2::pow2(done) != units * vstd::arithmetic::power2::pow2(
            done + left,
        ),
{
    vstd::arithmetic::power2::lemma_pow2_adds(done, left);
    vstd::arithmetic::power2::lemma_pow2_unfold(left);
    vstd::arithmetic::power2::lemma_pow2_pos(done);
    let pd = vstd::arithmetic::power2::pow2(done);
    let pl = vstd::arithmetic::power2::pow2((left - 1) as nat);
    if odd * pd == units * (pd * (2 * pl)) {
        assert(odd == 2 * (units * pl)) by (nonlinear_arith)
            requires
                odd * pd == units * (pd * (2 * pl)),
                pd > 0,
        ;
    }
}

/// Rounding moves a number below two to the power of `size` by less than two to
/// the power of `size - 53`.
proof fn lemma_rounding_error(n: nat, size: nat)
    requires
        n < vstd::arithmetic::power2::pow2(size),
        size >= rounding::DOUBLE_BITS,
    ensures
        rounding::nearest(n, 1, rounding::DOUBLE_BITS as nat) <= n
            + vstd::arithmetic::power2::pow2((size - rounding::DOUBLE_BITS) as nat),
        n <= rounding::nearest(n, 1, rounding::DOUBLE_BITS as nat)
            + vstd::arithmetic::power2::pow2((size - rounding::DOUBLE_BITS) as nat),
{
    assert(n / 1 == n);
    let place = rounding::last_place(n, rounding::DOUBLE_BITS as nat);
    let rounded = rounding::nearest(n, 1, rounding::DOUBLE_BITS as nat);
    rounding::lemma_last_place_bound(n, size, rounding::DOUBLE_BITS as nat);
    rounding::law_nearest_is_within_half_a_place(n, 1, rounding::DOUBLE_BITS as nat);
    assert(1 * rounded == rounded && 1 * place == place);
}

/// A share of at most the whole of a non-negative extent lies between zero and
/// the extent.
pub proof fn law_share_is_within_the_extent(extent: int, share: nat)
    requires
        0 <= extent <= i32::MAX,
        share <= UNITS_PER_ONE,
    ensures
        0 <= scaled(extent, share as int) <= extent,
{
    let product = extent * share;
    assert(0 <= product <= extent * UNITS_PER_ONE) by (nonlinear_arith)
        requires
            product == extent * share,
            0 <= extent,
            share <= UNITS_PER_ONE,
    ;
    lemma_powers();
    vstd::arithmetic::power2::lemma2_to64();
    rounding::law_rounding_stops_at_short_multiples(
        product as nat,
        extent as nat,
        84,
        rounding::DOUBLE_BITS as nat,
    );
    let rounded = rounding::nearest(product as nat, 1, rounding::DOUBLE_BITS as nat);
    assert(rounded / (UNITS_PER_ONE as nat) <= extent) by (nonlinear_arith)
        requires
            rounded <= extent * UNITS_PER_ONE,
    ;
}

proof fn lemma_powers()
    ensures
        vstd::arithmetic::power2::pow2(32) == 4294967296,
        vstd::arithmetic::power2::pow2(53) == 9007199254740992,
        vstd::arithmetic::power2::pow2(62) == 4611686018427387904,
        vstd::arithmetic::power2::pow2(84) == UNITS_PER_ONE,
        vstd::arithmetic::power2::pow2(85) == 2 * UNITS_PER_ONE,
        vstd::arithmetic::power2::pow2(115) == 2147483648 * UNITS_PER_ONE,
        vstd::arithmetic::power2::pow2(116) == 4294967296 * UNITS_PER_ONE,
{
    vstd::arithmetic::power2::lemma2_to64();
    vstd::arithmetic::power2::lemma2_to64_rest();
    vstd::arithmetic::power2::lemma_pow2_adds(52, 32);
    vstd::arithmetic::power2::lemma_pow2_unfold(85);
    vstd::arithmetic::power2::lemma_pow2_adds(84, 31);
    vstd::arithmetic::power2::lemma_pow2_adds(84, 32);
}

/// A region between two shares, cut to whole pixels, never leaves the extent
/// that it is a share of.
pub proof fn law_region_is_within_the_extent(extent: int, start: nat, end: nat)
    requires
        0 <= extent <= i32::MAX,
        start <= end <= UNITS_PER_ONE,
    ensures
        0 <= scaled(extent, start as int),
        0 <= scaled(extent, rounded_difference(end, start)),
        scaled(extent, start as int) + scaled(extent, rounded_difference(end, start)) <= extent,
{
    lemma_powers();
    vstd::arithmetic::power2::lemma2_to64();
    let one = UNITS_PER_ONE as nat;
    let bits = rounding::DOUBLE_BITS as nat;
    law_share_is_within_the_extent(extent, start);
    // The width of the region as a share of the whole.
    let gap = (end - start) as nat;
    let width = rounding::nearest(gap, 1, bits);
    lemma_rounding_error(gap, 85);
    assert(width <= one) by {
        rounding::law_rounding_stops_at_short_multiples(gap, 1, 84, bits);
    }
    law_share_is_within_the_extent(extent, width);
    // Both products, before they are cut to whole pixels.
    let first = (extent * start) as nat;
    let second = (extent * width) as nat;
    assert(extent * start >= 0 && extent * width >= 0) by (nonlinear_arith)
        requires
            extent >= 0,
    ;
    assert(extent * start <= 2147483647 * one && extent * width <= 2147483647 * one)
        by (nonlinear_arith)
        requires
            0 <= extent <= 2147483647,
            start <= one,
            width <= one,
    ;
    lemma_rounding_error(first, 115);
    lemma_rounding_error(second, 115);
    let first_rounded = rounding::nearest(first, 1, bits);
    let second_rounded = rounding::nearest(second, 1, bits);
    assert(first + second <= extent * one + 2147483647 * 4294967296) by (nonlinear_arith)
        requires
            first == extent * start,
            second == extent * width,
            width <= (end - start) + 4294967296,
            end <= one,
            0 <= extent <= 2147483647,
    ;
    assert(first_rounded + second_rounded < (extent + 1) * one);
    lemma_floors_add_up(first_rounded, second_rounded, one, extent);
}

proof fn lemma_floors_add_up(a: nat, b: nat, one: nat, extent: int)
    requires
        one > 0,
        a + b < (extent + 1) * one,
    ensures
        a / one + b / one <= extent,
{
    vstd::arithmetic::div_mod::lemma_fundamental_div_mod(a as int, one as int);
    vstd::arithmetic::div_mod::lemma_fundamental_div_mod(b as int, one as int);
    let x = a / one;
    let y = b / one;
    assert(x + y < extent + 1) by (nonlinear_arith)
        requires
            one > 0,
            one * x + one * y < (extent + 1) * one,
    ;
}

/// A share of an extent is the product cut to whole pixels: it is not above the product,
/// and less than one pixel below it, but for what rounding to a double adds or takes, less
/// than one millionth of a pixel.
pub proof fn law_shares_are_cut_to_whole_pixels(extent: int, share: nat)
    requires
        0 <= extent <= i32::MAX,
        share <= UNITS_PER_ONE,
    ensures
        scaled(extent, share as int) * UNITS_PER_ONE <= extent * share + 4611686018427387904,
        extent * share < (scaled(extent, share as int) + 1) * UNITS_PER_ONE + 4611686018427387904,
        1000000 * 4611686018427387904 < UNITS_PER_ONE,
{
    lemma_powers();
    law_share_is_within_the_extent(extent, share);
    let one = UNITS_PER_ONE as nat;
    assert(0 <= extent * share <= 2147483647 * one) by (nonlinear_arith)
        requires
            0 <= extent <= 2147483647,
            share <= one,
    ;
    let product = (extent * share) as nat;
    lemma_rounding_error(product, 115);
    let rounded = rounding::nearest(product, 1, rounding::DOUBLE_BITS as nat);
    vstd::arithmetic::div_mod::lemma_fundamental_div_mod(rounded as int, one as int);
    let size = rounded / one;
    let rest = rounded % one;
    assert(size * one <= rounded && rounded < (size + 1) * one) by (nonlinear_arith)
        requires
            rounded == one * size + rest,
            0 <= rest < one,
    ;
    assert(scaled(extent, share as int) == size);
}

/// A share of a whole number of thousandths is off by far less than a thousandth of one.
pub proof fn law_thousandths_are_nearly_exact(thousandths: nat)
    requires
        thousandths <= 1000,
    ensures
        1000 * thousandths_units(thousandths) <= thousandths * UNITS_PER_ONE + 1000 * 4294967296,
        thousandths * UNITS_PER_ONE <= 1000 * thousandths_units(thousandths) + 1000 * 4294967296,
{
    lemma_powers();
    let one = UNITS_PER_ONE as nat;
    let bits = rounding::DOUBLE_BITS as nat;
    let top = thousandths * one;
    rounding::law_nearest_is_within_half_a_place(top, 1000, bits);
    assert(top <= 1000 * one) by (nonlinear_arith)
        requires
            top == thousandths * one,
            thousandths <= 1000,
    ;
    assert(top / 1000 <= one);
    rounding::lemma_last_place_bound(top / 1000, 85, bits);
    let place = rounding::last_place(top / 1000, bits);
    assert(place <= 4294967296);
    assert(1000 * place <= 1000 * 4294967296);
}

/// The ratio of two sides reaches a ratio of thousandths exactly when the whole numbers do.
pub proof fn law_ratios_are_compared_exactly(w: int, h: int, thousandths: nat)
    requires
        0 <= w < 1048576,
        0 < h < 1048576,
        0 < thousandths < 1048576,
    ensures
        quotient_reaches(w, h, thousandths_units(thousandths)) <==> 1000 * w >= thousandths * h,
{
    lemma_powers();
    vstd::arithmetic::power2::lemma2_to64();
    let one = UNITS_PER_ONE as nat;
    let bits = rounding::DOUBLE_BITS as nat;
    let top = w as nat * one;
    let limit = thousandths * one;
    let ratio = rounding::nearest(top, h as nat, bits);
    let border = thousandths_units(thousandths);
    vstd::arithmetic::power2::lemma_pow2_adds(84, 20);
    vstd::arithmetic::power2::lemma_pow2_unfold(51);
    let width = w as nat;
    assert(width * one < 1048576 * one && limit < 1048576 * one) by (nonlinear_arith)
        requires
            limit == thousandths * one,
            width < 1048576,
            thousandths < 1048576,
            one > 0,
    ;
    let q = top / (h as nat);
    assert(q <= top) by (nonlinear_arith)
        requires
            q == top / (h as nat),
            h > 0,
    ;
    assert(vstd::arithmetic::power2::pow2(104) == 1048576 * one);
    rounding::lemma_last_place_bound(q, 104, bits);
    rounding::lemma_last_place_bound(limit / 1000, 104, bits);
    let p = rounding::last_place(q, bits);
    let r = rounding::last_place(limit / 1000, bits);
    assert(vstd::arithmetic::power2::pow2(51) == 2251799813685248) by {
        vstd::arithmetic::power2::lemma2_to64_rest();
    }
    rounding::law_nearest_is_within_half_a_place(top, h as nat, bits);
    rounding::law_nearest_is_within_half_a_place(limit, 1000, bits);
    if 1000 * w > thousandths * h {
        assert(h * ratio > h * border) by (nonlinear_arith)
            requires
                2 * top <= 2 * (h * ratio) + h * p,
                2 * (1000 * border) <= 2 * limit + 1000 * r,
                p <= 2251799813685248,
                r <= 2251799813685248,
                top == w * one,
                limit == thousandths * one,
                1000 * w >= thousandths * h + 1,
                0 < h < 1048576,
                one == 19342813113834066795298816,
        ;
        assert(ratio >= border) by (nonlinear_arith)
            requires
                h * ratio > h * border,
                h > 0,
        ;
    } else if 1000 * w == thousandths * h {
        lemma_equal_quotients(w as nat, h as nat, thousandths);
    } else {
        assert(h * ratio < h * border) by (nonlinear_arith)
            requires
                2 * (h * ratio) <= 2 * top + h * p,
                2 * limit <= 2 * (1000 * border) + 1000 * r,
                p <= 2251799813685248,
                r <= 2251799813685248,
                top == w * one,
                limit == thousandths * one,
                1000 * w + 1 <= thousandths * h,
                0 < h < 1048576,
                one == 19342813113834066795298816,
        ;
        assert(ratio < border) by (nonlinear_arith)
            requires
                h * ratio < h * border,
                h > 0,
        ;
    }
}

/// Equal quotients are rounded alike.
proof fn lemma_equal_quotients(w: nat, h: nat, thousandths: nat)
    requires
        h > 0,
        1000 * w == thousandths * h,
    ensures
        rounding::nearest(w * (UNITS_PER_ONE as nat), h, rounding::DOUBLE_BITS as nat)
            == thousandths_units(thousandths),
{
    let one = UNITS_PER_ONE as nat;
    let bits = rounding::DOUBLE_BITS as nat;
    rounding::law_extended_quotients_round_alike(w * one, h, 1000, bits);
    rounding::law_extended_quotients_round_alike(thousandths * one, 1000, h, bits);
    assert((w * one) * 1000 == (thousandths * one) * h) by (nonlinear_arith)
        requires
            1000 * w == thousandths * h,
    ;
    assert(h * 1000 == 1000 * h);
}

/// `pixels` is the number of `units`, cut to whole pixels, but for what rounding adds or
/// takes, less than one millionth of a pixel.
pub open spec fn is_cut(pixels: int, units: int) -> bool {
    &&& 1000000 * (pixels * UNITS_PER_ONE - units) < UNITS_PER_ONE
    &&& 1000000 * (units - (pixels + 1) * UNITS_PER_ONE) < UNITS_PER_ONE
}

/// The start of a region and its length are their shares of the extent, cut to whole
/// pixels.
pub proof fn law_spans_are_cut_to_whole_pixels(extent: int, start: nat, end: nat)
    requires
        0 <= extent <= i32::MAX,
        start <= end <= UNITS_PER_ONE,
    ensures
        is_cut(scaled(extent, start as int), extent * start),
        is_cut(scaled(extent, rounded_difference(end, start)), extent * (end - start)),
{
    lemma_powers();
    vstd::arithmetic::power2::lemma2_to64();
    law_shares_are_cut_to_whole_pixels(extent, start);
    let one = UNITS_PER_ONE as nat;
    let bits = rounding::DOUBLE_BITS as nat;
    let gap = (end - start) as nat;
    let width = rounding::nearest(gap, 1, bits);
    lemma_rounding_error(gap, 85);
    rounding::law_rounding_stops_at_short_multiples(gap, 1, 84, bits);
    law_shares_are_cut_to_whole_pixels(extent, width);
    assert(extent * width <= extent * gap + 2147483647 * 4294967296 && extent * gap <= extent
        * width + 2147483647 * 4294967296) by (nonlinear_arith)
        requires
            0 <= extent <= 2147483647,
            width <= gap + 4294967296,
            gap <= width + 4294967296,
    ;
}

/// What is cut of a share in thousandths is what whole numbers say: the pixel is not above
/// the share, and the next one not below it.
pub proof fn law_thousandths_of_an_extent(extent: int, from: nat, to: nat)
    requires
        0 <= extent <= i32::MAX,
        from <= to < 1000,
    ensures
        thousandths_units(from) <= thousandths_units(to) <= UNITS_PER_ONE,
        ({
            let start = scaled(extent, thousandths_units(from) as int);
            let length = scaled(
                extent,
                rounded_difference(thousandths_units(to), thousandths_units(from)),
            );
            &&& 1000 * start <= from * extent <= 1000 * (start + 1)
            &&& 1000 * length <= (to - from) * extent <= 1000 * (length + 1)
        }),
{
    law_thousandths_are_nearly_exact(from);
    law_thousandths_are_nearly_exact(to);
    let a = thousandths_units(from);
    let b = thousandths_units(to);
    assert(a <= b && b <= UNITS_PER_ONE) by {
        if from < to {
            assert(from * UNITS_PER_ONE + UNITS_PER_ONE <= to * UNITS_PER_ONE) by (nonlinear_arith)
                requires
                    from + 1 <= to,
            ;
        }
        assert(to * UNITS_PER_ONE <= 999 * UNITS_PER_ONE) by (nonlinear_arith)
            requires
                to <= 999,
        ;
    }
    law_spans_are_cut_to_whole_pixels(extent, a, b);
    let start = scaled(extent, a as int);
    let length = scaled(extent, rounded_difference(b, a));
    lemma_thousandths_are_cut(extent, a as int, from as int, start, 4294967296);
    lemma_thousandths_are_cut(extent, b - a, to - from, length, 8589934592);
}

proof fn lemma_thousandths_are_cut(
    extent: int,
    units: int,
    thousandths: int,
    pixels: int,
    error: int,
)
    requires
        0 <= extent <= i32::MAX,
        is_cut(pixels, extent * units),
        0 <= error <= 8589934592,
        1000 * units <= thousandths * UNITS_PER_ONE + 1000 * error,
        thousandths * UNITS_PER_ONE <= 1000 * units + 1000 * error,
    ensures
        1000 * pixels <= thousandths * extent <= 1000 * (pixels + 1),
{
    let one = UNITS_PER_ONE as int;
    let product = extent * units;
    let share = thousandths * extent;
    assert(1000 * product <= share * one + 2147483647 * (1000 * 8589934592) && share * one <= 1000
        * product + 2147483647 * (1000 * 8589934592)) by (nonlinear_arith)
        requires
            product == extent * units,
            share == thousandths * extent,
            0 <= extent <= 2147483647,
            0 <= error <= 8589934592,
            1000 * units <= thousandths * one + 1000 * error,
            thousandths * one <= 1000 * units + 1000 * error,
    ;
    assert(1000 * pixels < share + 1 && share < 1000 * (pixels + 1) + 1) by (nonlinear_arith)
        requires
            1000 * product <= share * one + 2147483647 * (1000 * 8589934592),
            share * one <= 1000 * product + 2147483647 * (1000 * 8589934592),
            1000000 * (pixels * one - product) < one,
            1000000 * (product - (pixels + 1) * one) < one,
            one == 19342813113834066795298816,
    ;
}

} // verus!
