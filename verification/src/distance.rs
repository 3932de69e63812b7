//! Distances between positions, as double precision gives them.
//!
//! The distance is the square root of a sum of two squares, every step of it rounded to a
//! double. It is held as a whole count of units of two to the power of minus 52, which
//! holds every such root exactly.
use crate::rounding;
use vstd::prelude::*;

verus! {

/// Two to the power of 52: units in the number one.
pub const ROOT_UNIT: u128 = 4503599627370496;

/// Two to the power of 53: above every significand.
pub const ROOT_LIMIT: u128 = 9007199254740992;

/// Two to the power of 104: the square of [`ROOT_UNIT`].
pub const SQUARE_UNIT: u128 = 20282409603651670423947251286016;

/// Two to the power of 106: the square of [`ROOT_LIMIT`].
pub const SQUARE_LIMIT: u128 = 81129638414606681695789005144064;

/// Two to the power of 68: above every rounded sum of squares.
pub const MAX_SUM: u128 = 295147905179352825856;

/// Weight of the lowest bit of the exponent field: two to the power of 52.
pub const EXPONENT_STEP: u64 = 4503599627370496;

/// Weight of the sign bit: two to the power of 63.
pub const SIGN_STEP: u64 = 9223372036854775808;

/// Exponent field of what is no finite number.
pub const SPECIAL_EXPONENT: u64 = 2047;

/// Encoding of the number five.
pub const FIVE_BITS: u64 = 4617315517961601024;

/// Exponent field of the number one.
pub const ONE_EXPONENT: u64 = 1023;

/// A double-precision number by its interchange format.
#[derive(Clone, Copy, Debug, PartialEq, Eq, Structural)]
pub struct Tolerance {
    pub bits: u64,
}

impl Tolerance {
    /// The exponent field.
    pub open spec fn exponent(self) -> nat {
        ((self.bits / EXPONENT_STEP) % 2048) as nat
    }

    /// The significand of a finite number, as a whole number.
    pub open spec fn significand(self) -> nat {
        (self.bits % EXPONENT_STEP + if self.exponent() > 0 {
            EXPONENT_STEP as int
        } else {
            0
        }) as nat
    }

    /// The number is above zero.
    pub open spec fn is_positive(self) -> bool {
        &&& self.bits < SIGN_STEP
        &&& if self.exponent() == SPECIAL_EXPONENT {
            self.bits % EXPONENT_STEP == 0
        } else {
            self.significand() > 0
        }
    }

    /// A number of `units` is less than this number. A finite number is its significand
    /// times two to the power of its exponent field, that of subnormal numbers taken as
    /// one, less 1075. Nothing is less than what is no number.
    pub open spec fn exceeds(self, units: nat) -> bool {
        if self.bits >= SIGN_STEP {
            false
        } else if self.exponent() == SPECIAL_EXPONENT {
            self.bits % EXPONENT_STEP == 0
        } else {
            units * vstd::arithmetic::power2::pow2(ONE_EXPONENT as nat) < self.significand()
                * vstd::arithmetic::power2::pow2(
                if self.exponent() > 0 {
                    self.exponent()
                } else {
                    1
                },
            )
        }
    }
}

/// The largest number whose square is not above `x`.
pub open spec fn floor_root(x: nat) -> nat
    decreases x,
{
    if x == 0 {
        0
    } else {
        let r = 2 * floor_root(x / 4);
        if (r + 1) * (r + 1) <= x {
            r + 1
        } else {
            r
        }
    }
}

/// The square root of a whole number, rounded to the nearest double, a tie going to the
/// even multiple of the last place.
pub open spec fn rounded_root(n: nat) -> nat {
    let square = n * (SQUARE_UNIT as nat);
    let floor = floor_root(square);
    let place = rounding::last_place(floor, rounding::DOUBLE_BITS as nat);
    let whole = floor / place;
    let middle = (2 * whole + 1) * place;
    let up = middle * middle < 4 * square || (middle * middle == 4 * square && whole % 2 == 1);
    (if up {
        whole + 1
    } else {
        whole
    }) * place
}

/// The sum of the squares of both differences, each step rounded to a double.
pub open spec fn rounded_sum(a: (i32, i32), b: (i32, i32)) -> nat {
    let bits = rounding::DOUBLE_BITS as nat;
    let dx = b.0 - a.0;
    let dy = b.1 - a.1;
    rounding::nearest(
        rounding::nearest((dx * dx) as nat, 1, bits) + rounding::nearest((dy * dy) as nat, 1, bits),
        1,
        bits,
    )
}

/// The distance between two positions.
pub open spec fn distance(a: (i32, i32), b: (i32, i32)) -> nat {
    rounded_root(rounded_sum(a, b))
}

/// A floor root is the largest number whose square is not above.
pub proof fn law_floor_root_is_the_largest(x: nat)
    ensures
        floor_root(x) * floor_root(x) <= x,
        x < (floor_root(x) + 1) * (floor_root(x) + 1),
    decreases x,
{
    if x > 0 {
        law_floor_root_is_the_largest(x / 4);
        let q = floor_root(x / 4);
        let r = 2 * q;
        assert(r * r <= x && x < (r + 2) * (r + 2)) by (nonlinear_arith)
            requires
                r == 2 * q,
                q * q <= x / 4,
                x / 4 < (q + 1) * (q + 1),
        ;
        let root = floor_root(x);
        assert(root == if (r + 1) * (r + 1) <= x {
            r + 1
        } else {
            r
        });
        assert(root * root <= x && x < (root + 1) * (root + 1)) by (nonlinear_arith)
            requires
                r * r <= x,
                x < (r + 2) * (r + 2),
                (r + 1) * (r + 1) <= x && root == r + 1 || x < (r + 1) * (r + 1) && root == r,
        ;
    } else {
        let root = floor_root(x);
        assert(root * root <= x && x < (root + 1) * (root + 1)) by (nonlinear_arith)
            requires
                root == 0,
                x == 0,
        ;
    }
}

proof fn lemma_floor_root_is_unique(x: nat, r: nat)
    requires
        r * r <= x,
        x < (r + 1) * (r + 1),
    ensures
        floor_root(x) == r,
{
    law_floor_root_is_the_largest(x);
    let q = floor_root(x);
    assert(q == r) by (nonlinear_arith)
        requires
            r * r <= x,
            x < (r + 1) * (r + 1),
            q * q <= x,
            x < (q + 1) * (q + 1),
    ;
}

/// The number `x` doubled `times` times.
fn doubled(x: u128, times: u32) -> (r: u128)
    requires
        x * vstd::arithmetic::power2::pow2(times as nat) <= u128::MAX,
    ensures
        r == x * vstd::arithmetic::power2::pow2(times as nat),
{
    let mut r: u128 = x;
    let mut i: u32 = 0;
    proof {
        vstd::arithmetic::power2::lemma2_to64();
    }
    while i < times
        invariant
            i <= times,
            r == x * vstd::arithmetic::power2::pow2(i as nat),
            x * vstd::arithmetic::power2::pow2(times as nat) <= u128::MAX,
        decreases times - i,
    {
        proof {
            let now = vstd::arithmetic::power2::pow2(i as nat);
            let next = vstd::arithmetic::power2::pow2((i + 1) as nat);
            let all = vstd::arithmetic::power2::pow2(times as nat);
            vstd::arithmetic::power2::lemma_pow2_unfold((i + 1) as nat);
            if i + 1 < times {
                vstd::arithmetic::power2::lemma_pow2_strictly_increases(
                    (i + 1) as nat,
                    times as nat,
                );
            }
            assert(x * next == 2 * (x * now)) by (nonlinear_arith)
                requires
                    next == 2 * now,
            ;
            assert(x * next <= x * all) by (nonlinear_arith)
                requires
                    next <= all,
            ;
        }
        r = 2 * r;
        i = i + 1;
    }
    r
}

/// The largest number whose square is not above `x`.
fn root_of(x: u128) -> (r: u128)
    requires
        x < SQUARE_LIMIT,
    ensures
        r == floor_root(x as nat),
        r * r <= x,
        x < (r + 1) * (r + 1),
        r < ROOT_LIMIT,
{
    let mut low: u128 = 0;
    let mut high: u128 = ROOT_LIMIT;
    while high - low > 1
        invariant
            low < high,
            high <= ROOT_LIMIT,
            low * low <= x,
            x < high * high,
        decreases high - low,
    {
        let middle: u128 = low + (high - low) / 2;
        assert(middle * middle <= ROOT_LIMIT * ROOT_LIMIT) by (nonlinear_arith)
            requires
                middle <= ROOT_LIMIT,
        ;
        if middle * middle <= x {
            low = middle;
        } else {
            high = middle;
        }
    }
    assert(high == low + 1);
    proof {
        lemma_floor_root_is_unique(x as nat, low as nat);
    }
    low
}

proof fn lemma_power_of_four(i: nat)
    ensures
        vstd::arithmetic::power2::pow2(2 * i) == vstd::arithmetic::power2::pow2(i)
            * vstd::arithmetic::power2::pow2(i),
        vstd::arithmetic::power2::pow2(2 * (i + 1)) == 4 * vstd::arithmetic::power2::pow2(2 * i),
{
    vstd::arithmetic::power2::lemma_pow2_adds(i, i);
    vstd::arithmetic::power2::lemma_pow2_unfold(2 * i + 1);
    vstd::arithmetic::power2::lemma_pow2_unfold(2 * i + 2);
}

/// The rounded root from the root of the number scaled to the size of a significand.
proof fn lemma_rounded_root(n: nat, scaled: nat, r: nat, place: nat, shift: nat)
    requires
        place == vstd::arithmetic::power2::pow2(shift),
        scaled * (place * place) == n * (SQUARE_UNIT as nat),
        r == floor_root(scaled),
        SQUARE_UNIT <= scaled < SQUARE_LIMIT,
    ensures
        ROOT_UNIT <= r < ROOT_LIMIT,
        rounded_root(n) == (if scaled > r * r + r {
            r + 1
        } else {
            r
        }) * place,
{
    let bits = rounding::DOUBLE_BITS as nat;
    let square = n * (SQUARE_UNIT as nat);
    let floor = floor_root(square);
    law_floor_root_is_the_largest(scaled);
    law_floor_root_is_the_largest(square);
    vstd::arithmetic::power2::lemma_pow2_pos(shift);
    assert(ROOT_UNIT <= r < ROOT_LIMIT) by (nonlinear_arith)
        requires
            r * r <= scaled,
            scaled < (r + 1) * (r + 1),
            4503599627370496 * 4503599627370496 <= scaled,
            scaled < 9007199254740992 * 9007199254740992,
            ROOT_UNIT == 4503599627370496,
            ROOT_LIMIT == 9007199254740992,
    ;
    assert((r * place) * (r * place) == (r * r) * (place * place)) by (nonlinear_arith);
    assert(((r + 1) * place) * ((r + 1) * place) == ((r + 1) * (r + 1)) * (place * place))
        by (nonlinear_arith);
    assert((r * r) * (place * place) <= scaled * (place * place)) by (nonlinear_arith)
        requires
            r * r <= scaled,
    ;
    assert(scaled * (place * place) < ((r + 1) * (r + 1)) * (place * place)) by (nonlinear_arith)
        requires
            scaled < (r + 1) * (r + 1),
            place > 0,
    ;
    let low = r * place;
    let high = (r + 1) * place;
    assert(low <= floor < high) by (nonlinear_arith)
        requires
            low * low <= square,
            square < high * high,
            floor * floor <= square,
            square < (floor + 1) * (floor + 1),
    ;
    assert(high == low + place) by (nonlinear_arith)
        requires
            low == r * place,
            high == (r + 1) * place,
    ;
    vstd::arithmetic::div_mod::lemma_fundamental_div_mod_converse(
        floor as int,
        place as int,
        r as int,
        floor - low,
    );
    // The last place of the floor.
    vstd::arithmetic::power2::lemma2_to64();
    vstd::arithmetic::power2::lemma2_to64_rest();
    vstd::arithmetic::power2::lemma_pow2_adds(52, shift);
    vstd::arithmetic::power2::lemma_pow2_adds(53, shift);
    assert(4503599627370496 * place <= floor < 9007199254740992 * place) by (nonlinear_arith)
        requires
            4503599627370496 <= r,
            r + 1 <= 9007199254740992,
            r * place <= floor,
            floor < (r + 1) * place,
            place > 0,
    ;
    rounding::lemma_bit_length_bound(floor, 52 + shift);
    rounding::lemma_bit_length_bound(floor, 53 + shift);
    assert(rounding::bit_length(floor) == 53 + shift);
    assert(rounding::last_place(floor, bits) == place);
    let middle = (2 * r + 1) * place;
    assert(middle * middle == ((2 * r + 1) * (2 * r + 1)) * (place * place)) by (nonlinear_arith)
        requires
            middle == (2 * r + 1) * place,
    ;
    let odd = (2 * r + 1) * (2 * r + 1);
    assert(odd == 4 * (r * r + r) + 1) by (nonlinear_arith)
        requires
            odd == (2 * r + 1) * (2 * r + 1),
    ;
    let weight = place * place;
    assert(weight > 0) by (nonlinear_arith)
        requires
            place > 0,
            weight == place * place,
    ;
    assert((odd * weight < 4 * (scaled * weight)) == (odd < 4 * scaled)) by (nonlinear_arith)
        requires
            weight > 0,
    ;
    assert((odd * weight == 4 * (scaled * weight)) == (odd == 4 * scaled)) by (nonlinear_arith)
        requires
            weight > 0,
    ;
}

/// The square root of a whole number, rounded to the nearest double.
fn nearest_root(n: u128) -> (r: u128)
    requires
        n <= MAX_SUM,
    ensures
        r == rounded_root(n as nat),
        r <= ROOT_LIMIT * ROOT_LIMIT,
{
    if n == 0 {
        proof {
            assert(floor_root(0) == 0);
            rounding::lemma_last_place_of_nothing(rounding::DOUBLE_BITS as nat);
        }
        return 0;
    }
    let mut scaled: u128 = n;
    let mut shift: u32 = 52;
    proof {
        vstd::arithmetic::power2::lemma2_to64();
        vstd::arithmetic::power2::lemma2_to64_rest();
        lemma_power_of_four(52);
        assert(vstd::arithmetic::power2::pow2(104) == SQUARE_UNIT);
    }
    while scaled < SQUARE_UNIT
        invariant
            1 <= n,
            scaled < SQUARE_LIMIT,
            shift <= 52,
            scaled * vstd::arithmetic::power2::pow2(2 * shift as nat) == n * SQUARE_UNIT,
            SQUARE_LIMIT == 4 * SQUARE_UNIT,
        decreases shift,
    {
        proof {
            if shift == 0 {
                vstd::arithmetic::power2::lemma2_to64();
                assert(scaled * 1 == n * SQUARE_UNIT);
                assert(n * SQUARE_UNIT >= SQUARE_UNIT) by (nonlinear_arith)
                    requires
                        n >= 1,
                ;
            }
            lemma_power_of_four((shift - 1) as nat);
            let fewer = vstd::arithmetic::power2::pow2(2 * (shift - 1) as nat);
            assert((4 * scaled) * fewer == scaled * (4 * fewer)) by (nonlinear_arith);
        }
        scaled = 4 * scaled;
        shift = shift - 1;
    }
    let r: u128 = root_of(scaled);
    assert(r * r + r <= ROOT_LIMIT * ROOT_LIMIT) by (nonlinear_arith)
        requires
            r < ROOT_LIMIT,
    ;
    let significand: u128 = if scaled > r * r + r {
        r + 1
    } else {
        r
    };
    proof {
        lemma_power_of_four(shift as nat);
        let place = vstd::arithmetic::power2::pow2(shift as nat);
        lemma_rounded_root(n as nat, scaled as nat, r as nat, place, shift as nat);
        if shift < 52 {
            vstd::arithmetic::power2::lemma_pow2_strictly_increases(shift as nat, 52);
        }
        assert(significand * place <= ROOT_LIMIT * ROOT_LIMIT) by (nonlinear_arith)
            requires
                significand <= ROOT_LIMIT,
                place <= ROOT_LIMIT,
        ;
    }
    doubled(significand, shift)
}

fn square_of(d: i64) -> (r: u128)
    requires
        -4294967296 <= d <= 4294967296,
    ensures
        r == rounding::nearest((d * d) as nat, 1, rounding::DOUBLE_BITS as nat),
        r <= 36893488147419103233,
{
    let size: u128 = if d < 0 {
        (-d) as u128
    } else {
        d as u128
    };
    assert(size * size == d * d && size * size <= 4294967296 * 4294967296) by (nonlinear_arith)
        requires
            size == d || size == -d,
            size <= 4294967296,
    ;
    rounding::round_quotient(size * size, 1, rounding::DOUBLE_BITS)
}

/// The distance between two positions.
pub fn distance_between(a: (i32, i32), b: (i32, i32)) -> (r: u128)
    ensures
        r == distance(a, b),
        r <= ROOT_LIMIT * ROOT_LIMIT,
{
    let x: u128 = square_of(b.0 as i64 - a.0 as i64);
    let y: u128 = square_of(b.1 as i64 - a.1 as i64);
    let sum: u128 = rounding::round_quotient(x + y, 1, rounding::DOUBLE_BITS);
    nearest_root(sum)
}

proof fn lemma_above_one(units: nat, significand: nat, up: nat)
    ensures
        units * vstd::arithmetic::power2::pow2(ONE_EXPONENT as nat) < significand
            * vstd::arithmetic::power2::pow2(ONE_EXPONENT as nat + up) <==> units < significand
            * vstd::arithmetic::power2::pow2(up),
{
    let one = vstd::arithmetic::power2::pow2(ONE_EXPONENT as nat);
    let rest = vstd::arithmetic::power2::pow2(up);
    vstd::arithmetic::power2::lemma_pow2_pos(ONE_EXPONENT as nat);
    vstd::arithmetic::power2::lemma_pow2_adds(ONE_EXPONENT as nat, up);
    assert(units * one < significand * (one * rest) <==> units < significand * rest)
        by (nonlinear_arith)
        requires
            one > 0,
    ;
}

proof fn lemma_below_one(units: nat, significand: nat, down: nat)
    requires
        down <= ONE_EXPONENT,
    ensures
        units * vstd::arithmetic::power2::pow2(ONE_EXPONENT as nat) < significand
            * vstd::arithmetic::power2::pow2((ONE_EXPONENT - down) as nat) <==> units
            * vstd::arithmetic::power2::pow2(down) < significand,
{
    let place = vstd::arithmetic::power2::pow2((ONE_EXPONENT - down) as nat);
    let rest = vstd::arithmetic::power2::pow2(down);
    vstd::arithmetic::power2::lemma_pow2_pos((ONE_EXPONENT - down) as nat);
    vstd::arithmetic::power2::lemma_pow2_adds((ONE_EXPONENT - down) as nat, down);
    assert(units * (place * rest) < significand * place <==> units * rest < significand)
        by (nonlinear_arith)
        requires
            place > 0,
    ;
}

proof fn lemma_short_product(a: nat, b: nat)
    requires
        a <= ROOT_LIMIT,
        b <= 1152921504606846976,
    ensures
        a * b <= u128::MAX,
{
    assert(a * b <= 9007199254740992 * 1152921504606846976) by (nonlinear_arith)
        requires
            a <= 9007199254740992,
            b <= 1152921504606846976,
    ;
}

proof fn lemma_large_product(a: nat, b: nat)
    requires
        a >= ROOT_UNIT,
        b >= 1152921504606846976,
    ensures
        a * b > ROOT_LIMIT * ROOT_LIMIT,
{
    assert(a * b >= 4503599627370496 * 1152921504606846976) by (nonlinear_arith)
        requires
            a >= 4503599627370496,
            b >= 1152921504606846976,
    ;
}

proof fn lemma_no_smaller(a: nat, b: nat)
    requires
        b >= 1,
    ensures
        a * b >= a,
        a == 0 ==> a * b == 0,
        a >= 1 ==> a * b >= b,
{
    assert(a * b >= a && (a == 0 ==> a * b == 0) && (a >= 1 ==> a * b >= b)) by (nonlinear_arith)
        requires
            b >= 1,
    ;
}

impl Tolerance {
    /// Whether a number of `units` is less than this number.
    pub fn is_above(self, units: u128) -> (r: bool)
        requires
            units <= ROOT_LIMIT * ROOT_LIMIT,
        ensures
            r == self.exceeds(units as nat),
    {
        if self.bits >= SIGN_STEP {
            return false;
        }
        let exponent: u64 = (self.bits / EXPONENT_STEP) % 2048;
        let fraction: u64 = self.bits % EXPONENT_STEP;
        if exponent == SPECIAL_EXPONENT {
            return fraction == 0;
        }
        let significand: u128 = if exponent > 0 {
            fraction as u128 + ROOT_UNIT
        } else {
            fraction as u128
        };
        let place: u64 = if exponent > 0 {
            exponent
        } else {
            1
        };
        proof {
            vstd::arithmetic::power2::lemma2_to64();
            vstd::arithmetic::power2::lemma2_to64_rest();
            lemma_power_of_four(52);
            lemma_power_of_four(53);
        }
        if place >= ONE_EXPONENT {
            let up: u32 = (place - ONE_EXPONENT) as u32;
            proof {
                lemma_above_one(units as nat, significand as nat, up as nat);
                if up < 60 {
                    vstd::arithmetic::power2::lemma_pow2_strictly_increases(up as nat, 60);
                    lemma_short_product(
                        significand as nat,
                        vstd::arithmetic::power2::pow2(up as nat),
                    );
                } else {
                    if up > 60 {
                        vstd::arithmetic::power2::lemma_pow2_strictly_increases(60, up as nat);
                    }
                    lemma_large_product(
                        significand as nat,
                        vstd::arithmetic::power2::pow2(up as nat),
                    );
                }
            }
            up >= 60 || units < doubled(significand, up)
        } else {
            let down: u32 = (ONE_EXPONENT - place) as u32;
            proof {
                lemma_below_one(units as nat, significand as nat, down as nat);
                if down < 53 {
                    vstd::arithmetic::power2::lemma_pow2_strictly_increases(down as nat, 53);
                    if units < ROOT_LIMIT {
                        lemma_short_product(
                            units as nat,
                            vstd::arithmetic::power2::pow2(down as nat),
                        );
                    }
                } else if down > 53 {
                    vstd::arithmetic::power2::lemma_pow2_strictly_increases(53, down as nat);
                }
                lemma_no_smaller(units as nat, vstd::arithmetic::power2::pow2(down as nat));
            }
            if units >= ROOT_LIMIT {
                false
            } else if units == 0 {
                significand > 0
            } else {
                down < 53 && doubled(units, down) < significand
            }
        }
    }
}

/// Two equal positions have no distance, and every number above zero is above that.
pub proof fn law_a_position_is_near_itself(a: (i32, i32), tolerance: Tolerance)
    ensures
        distance(a, a) == 0,
        tolerance.exceeds(0) <==> tolerance.is_positive(),
{
    let bits = rounding::DOUBLE_BITS as nat;
    vstd::arithmetic::power2::lemma_pow2_pos(bits);
    rounding::law_short_numbers_are_kept(0, bits);
    rounding::lemma_last_place_of_nothing(bits);
    assert(floor_root(0) == 0);
    assert(rounded_root(0) == 0);
    let place = if tolerance.exponent() > 0 {
        tolerance.exponent()
    } else {
        1
    };
    let weight = vstd::arithmetic::power2::pow2(place);
    let significand = tolerance.significand();
    vstd::arithmetic::power2::lemma_pow2_pos(place);
    assert(0 < significand * weight <==> significand > 0) by (nonlinear_arith)
        requires
            weight > 0,
    ;
}

/// A rounded number is at least about half of the number.
proof fn lemma_nearest_keeps_half(m: nat, bits: nat)
    requires
        bits > 0,
    ensures
        2 * rounding::nearest(m, 1, bits) + 1 >= m,
{
    rounding::law_nearest_is_within_half_a_place(m, 1, bits);
    assert(m / 1 == m);
    let size = rounding::bit_length(m);
    if size > bits {
        rounding::lemma_bit_length_bound(m, (size - 1) as nat);
        if size - bits < size - 1 {
            vstd::arithmetic::power2::lemma_pow2_strictly_increases(
                (size - bits) as nat,
                (size - 1) as nat,
            );
        }
    }
}

/// The rounded sum is below 25 exactly when the sum itself is.
proof fn lemma_small_sums(a: (i32, i32), b: (i32, i32))
    ensures
        ({
            let dx = b.0 - a.0;
            let dy = b.1 - a.1;
            rounded_sum(a, b) < 25 <==> dx * dx + dy * dy < 25
        }),
{
    let bits = rounding::DOUBLE_BITS as nat;
    let dx = b.0 - a.0;
    let dy = b.1 - a.1;
    assert(dx * dx >= 0 && dy * dy >= 0) by (nonlinear_arith);
    let x = (dx * dx) as nat;
    let y = (dy * dy) as nat;
    let rx = rounding::nearest(x, 1, bits);
    let ry = rounding::nearest(y, 1, bits);
    vstd::arithmetic::power2::lemma2_to64_rest();
    if x + y < 9007199254740992 {
        rounding::law_short_numbers_are_kept(x, bits);
        rounding::law_short_numbers_are_kept(y, bits);
        rounding::law_short_numbers_are_kept(x + y, bits);
    } else {
        lemma_nearest_keeps_half(x, bits);
        lemma_nearest_keeps_half(y, bits);
        lemma_nearest_keeps_half(rx + ry, bits);
    }
}

/// A rounded root is below five exactly when the number is below 25.
proof fn lemma_roots_below_five(n: nat)
    ensures
        rounded_root(n) < 5 * ROOT_UNIT <==> n < 25,
{
    let bits = rounding::DOUBLE_BITS as nat;
    let square = n * (SQUARE_UNIT as nat);
    let floor = floor_root(square);
    let place = rounding::last_place(floor, bits);
    let whole = floor / place;
    law_floor_root_is_the_largest(square);
    let size = rounding::bit_length(floor);
    vstd::arithmetic::power2::lemma2_to64();
    vstd::arithmetic::power2::lemma2_to64_rest();
    rounding::lemma_bit_length_bound(floor, 55);
    rounding::lemma_bit_length_bound(floor, 54);
    if n < 25 {
        assert(floor < 22067638174115431) by (nonlinear_arith)
            requires
                floor * floor <= square,
                square <= 24 * 20282409603651670423947251286016,
        ;
        rounding::lemma_last_place_bound(floor, 55, bits);
    } else {
        assert(floor >= 22517998136852480) by (nonlinear_arith)
            requires
                square < (floor + 1) * (floor + 1),
                square >= 25 * 20282409603651670423947251286016,
        ;
        if size > 55 {
            rounding::lemma_bit_length_bound(floor, (size - 1) as nat);
            vstd::arithmetic::power2::lemma_pow2_adds((size - bits) as nat, 52);
            vstd::arithmetic::power2::lemma_pow2_adds((size - bits - 3) as nat, 3);
            vstd::arithmetic::power2::lemma_pow2_pos((size - bits - 3) as nat);
        }
    }
    assert(place > 0) by {
        if size > bits {
            vstd::arithmetic::power2::lemma_pow2_pos((size - bits) as nat);
        }
    }
    vstd::arithmetic::div_mod::lemma_fundamental_div_mod(floor as int, place as int);
    assert(whole * place == place * whole) by (nonlinear_arith);
    assert((whole + 1) * place == whole * place + place) by (nonlinear_arith);
    if n >= 25 && size > 55 {
        assert(whole * place >= 36028797018963968) by (nonlinear_arith)
            requires
                floor >= 4503599627370496 * place,
                whole * place + place > floor,
                place >= 8,
        ;
    }
    if n >= 25 && size == 55 {
        assert(place == 4);
    }
}

/// With a tolerance of five, positions are near each other exactly when the sum of the
/// squares of their differences is below 25: no rounding shows.
pub proof fn law_rounding_does_not_show_at_five(a: (i32, i32), b: (i32, i32))
    ensures
        ({
            let dx = b.0 - a.0;
            let dy = b.1 - a.1;
            (Tolerance { bits: FIVE_BITS }).exceeds(distance(a, b)) <==> dx * dx + dy * dy < 25
        }),
{
    lemma_small_sums(a, b);
    lemma_roots_below_five(rounded_sum(a, b));
    let five = Tolerance { bits: FIVE_BITS };
    vstd::arithmetic::power2::lemma2_to64();
    assert(five.exponent() == 1025);
    assert(five.significand() == 5629499534213120);
    lemma_above_one(distance(a, b), 5629499534213120, 2);
}

/// The rounded root of a whole number is off by half of its last place at most: the double
/// half a place below is not above the root, and the one half a place above not below it.
pub proof fn law_rounded_roots_are_nearest(n: nat)
    ensures
        ({
            let square = n * (SQUARE_UNIT as nat);
            let place = rounding::last_place(floor_root(square), rounding::DOUBLE_BITS as nat);
            let root = rounded_root(n);
            &&& (2 * root - place) <= 0 || (2 * root - place) * (2 * root - place) <= 4 * square
            &&& 4 * square <= (2 * root + place) * (2 * root + place)
        }),
{
    let bits = rounding::DOUBLE_BITS as nat;
    let square = n * (SQUARE_UNIT as nat);
    let floor = floor_root(square);
    let place = rounding::last_place(floor, bits);
    law_floor_root_is_the_largest(square);
    if rounding::bit_length(floor) > bits {
        vstd::arithmetic::power2::lemma_pow2_pos((rounding::bit_length(floor) - bits) as nat);
    }
    let whole = floor / place;
    let rest = floor % place;
    vstd::arithmetic::div_mod::lemma_fundamental_div_mod(floor as int, place as int);
    let low = whole * place;
    let middle = (2 * whole + 1) * place;
    let high = (whole + 1) * place;
    assert(floor == low + rest) by (nonlinear_arith)
        requires
            floor == place * whole + rest,
            low == whole * place,
    ;
    assert(middle == 2 * low + place && high == low + place) by (nonlinear_arith)
        requires
            low == whole * place,
            middle == (2 * whole + 1) * place,
            high == (whole + 1) * place,
    ;
    assert(4 * square < (2 * high) * (2 * high)) by (nonlinear_arith)
        requires
            square < (floor + 1) * (floor + 1),
            floor + 1 <= high,
    ;
    assert((2 * low) * (2 * low) <= 4 * square) by (nonlinear_arith)
        requires
            floor * floor <= square,
            low <= floor,
    ;
    let up = middle * middle < 4 * square || (middle * middle == 4 * square && whole % 2 == 1);
    if up {
        assert((2 * high) * (2 * high) <= (2 * high + place) * (2 * high + place))
            by (nonlinear_arith);
    } else {
        assert(4 * square <= middle * middle);
        if 2 * low - place > 0 {
            assert((2 * low - place) * (2 * low - place) <= (2 * low) * (2 * low))
                by (nonlinear_arith)
                requires
                    0 < 2 * low - place,
                    place >= 0,
            ;
        }
    }
}

} // verus!
