//! Rounding of exact quotients to a fixed number of significant bits.
//!
//! The screen geometry is calibrated in binary floating point, and every pixel
//! that it yields depends on how a product or a quotient is rounded. This
//! module carries those roundings out on whole numbers: a value is held as a
//! count of some small power of two, and [`round_quotient`] rounds an exact
//! quotient to the nearest count that has at most the given number of
//! significant bits, ties going to the even neighbour.
use vstd::prelude::*;

verus! {

/// Significant bits of a double-precision number.
pub const DOUBLE_BITS: u32 = 53;

/// Significant bits of a single-precision number.
pub const SINGLE_BITS: u32 = 24;

/// Two to the power of [`DOUBLE_BITS`].
pub const DOUBLE_LIMIT: u128 = 9007199254740992;

/// Two to the power of [`SINGLE_BITS`].
pub const SINGLE_LIMIT: u128 = 16777216;

/// Largest numerator that [`round_quotient`] takes: half the range of the type.
pub const MAX_NUMERATOR: u128 = 170141183460469231731687303715884105727;

/// Number of binary digits of `n`; zero has none.
pub open spec fn bit_length(n: nat) -> nat
    decreases n,
{
    if n == 0 {
        0
    } else {
        1 + bit_length(n / 2)
    }
}

/// The weight of the last of `bits` significant binary digits of `q`, and at
/// least one.
pub open spec fn last_place(q: nat, bits: nat) -> nat {
    if bit_length(q) <= bits {
        1
    } else {
        vstd::arithmetic::power2::pow2((bit_length(q) - bits) as nat)
    }
}

/// The quotient `num / den` rounded to the nearest multiple of its last place,
/// a tie going to the even multiple.
pub open spec fn nearest(num: nat, den: nat, bits: nat) -> nat {
    let step = den * last_place(num / den, bits);
    let whole = num / step;
    let rest = num % step;
    let up = 2 * rest > step || (2 * rest == step && whole % 2 == 1);
    (if up {
        whole + 1
    } else {
        whole
    }) * last_place(num / den, bits)
}

/// A number has at most `bits` binary digits exactly when it is below two to
/// the power of `bits`.
pub proof fn lemma_bit_length_bound(n: nat, bits: nat)
    ensures
        bit_length(n) <= bits <==> n < vstd::arithmetic::power2::pow2(bits),
    decreases bits,
{
    vstd::arithmetic::power2::lemma_pow2_pos(bits);
    if bits == 0 {
        vstd::arithmetic::power2::lemma2_to64();
    } else if n > 0 {
        lemma_bit_length_bound(n / 2, (bits - 1) as nat);
        vstd::arithmetic::power2::lemma_pow2_unfold(bits);
    }
}

/// Halving a number drops one binary digit.
proof fn lemma_last_place_step(q: nat, unit: nat, shift: nat)
    requires
        unit == vstd::arithmetic::power2::pow2(shift),
        q / unit > 0,
        bit_length(q / unit) + shift == bit_length(q),
    ensures
        2 * unit == vstd::arithmetic::power2::pow2(shift + 1),
        (q / unit) / 2 == q / (2 * unit),
        bit_length(q / (2 * unit)) + shift + 1 == bit_length(q),
{
    vstd::arithmetic::power2::lemma_pow2_unfold(shift + 1);
    vstd::arithmetic::power2::lemma_pow2_pos(shift);
    vstd::arithmetic::div_mod::lemma_div_denominator(q as int, unit as int, 2);
    assert(unit * 2 == 2 * unit);
}

/// Rounds the exact quotient `num / den` to `bits` significant bits.
pub fn round_quotient(num: u128, den: u128, bits: u32) -> (r: u128)
    requires
        den > 0,
        num <= MAX_NUMERATOR,
        bits == DOUBLE_BITS || bits == SINGLE_BITS,
    ensures
        r == nearest(num as nat, den as nat, bits as nat),
        r <= 2 * (num / den) + 1,
        num >= den ==> r >= 1,
{
    let limit: u128 = if bits == DOUBLE_BITS {
        DOUBLE_LIMIT
    } else {
        SINGLE_LIMIT
    };
    proof {
        vstd::arithmetic::power2::lemma2_to64();
        vstd::arithmetic::power2::lemma2_to64_rest();
    }
    assert(limit == vstd::arithmetic::power2::pow2(bits as nat));
    let q: u128 = num / den;
    let ghost mut shift: nat = 0;
    let mut unit: u128 = 1;
    let mut top: u128 = q;
    assert(q / 1 == q);
    while top >= limit
        invariant
            limit == vstd::arithmetic::power2::pow2(bits as nat),
            limit >= 2,
            q <= MAX_NUMERATOR,
            unit == vstd::arithmetic::power2::pow2(shift),
            unit >= 1,
            top == q / unit,
            unit <= q || unit == 1,
            bit_length(top as nat) + shift == bit_length(q as nat),
            shift == 0 || bit_length(q as nat) == bits + shift || bit_length(q as nat) > bits
                + shift,
        decreases top,
    {
        proof {
            lemma_last_place_step(q as nat, unit as nat, shift);
            lemma_bit_length_bound(top as nat, bits as nat);
            assert(2 * unit <= q) by (nonlinear_arith)
                requires
                    top == q / unit,
                    top >= 2,
                    unit >= 1,
            ;
            shift = shift + 1;
        }
        unit = unit * 2;
        top = top / 2;
    }
    proof {
        lemma_bit_length_bound(top as nat, bits as nat);
    }
    assert(unit == last_place(q as nat, bits as nat));
    assert(den * unit <= num || unit == 1) by (nonlinear_arith)
        requires
            q == num / den,
            den > 0,
            unit <= q || unit == 1,
    ;
    let step: u128 = den * unit;
    proof {
        vstd::arithmetic::div_mod::lemma_div_denominator(num as int, den as int, unit as int);
    }
    let whole: u128 = top;
    assert(whole == num / step);
    let rest: u128 = num % step;
    let up: bool = rest > step - rest || (rest == step - rest && whole % 2 == 1);
    assert(whole * unit <= q) by (nonlinear_arith)
        requires
            whole == q / unit,
            unit >= 1,
    ;
    assert((whole + 1) * unit == whole * unit + unit) by (nonlinear_arith);
    if num >= den {
        assert(q >= 1) by (nonlinear_arith)
            requires
                q == num / den,
                num >= den,
                den > 0,
        ;
        assert(whole * unit >= 1) by (nonlinear_arith)
            requires
                whole == q / unit,
                q >= 1,
                unit >= 1,
                unit <= q || unit == 1,
        ;
    }
    if up {
        (whole + 1) * unit
    } else {
        whole * unit
    }
}

/// The rounded quotient lies within half a last place of the exact one.
pub proof fn law_nearest_is_within_half_a_place(num: nat, den: nat, bits: nat)
    requires
        den > 0,
    ensures
        2 * (den * nearest(num, den, bits)) <= 2 * num + den * last_place(num / den, bits),
        2 * num <= 2 * (den * nearest(num, den, bits)) + den * last_place(num / den, bits),
{
    lemma_last_place_pos(num / den, bits);
    let unit = last_place(num / den, bits);
    let step = den * unit;
    assert(step > 0) by (nonlinear_arith)
        requires
            den > 0,
            unit > 0,
            step == den * unit,
    ;
    let whole = num / step;
    vstd::arithmetic::div_mod::lemma_fundamental_div_mod(num as int, step as int);
    assert(den * (whole * unit) == step * whole) by (nonlinear_arith)
        requires
            step == den * unit,
    ;
    assert(den * ((whole + 1) * unit) == step * whole + step) by (nonlinear_arith)
        requires
            step == den * unit,
    ;
}

proof fn lemma_last_place_pos(q: nat, bits: nat)
    ensures
        last_place(q, bits) > 0,
{
    if bit_length(q) > bits {
        vstd::arithmetic::power2::lemma_pow2_pos((bit_length(q) - bits) as nat);
    }
}

/// A whole number that needs no more than `bits` binary digits is kept as it is.
pub proof fn law_short_numbers_are_kept(n: nat, bits: nat)
    requires
        n < vstd::arithmetic::power2::pow2(bits),
    ensures
        nearest(n, 1, bits) == n,
{
    lemma_bit_length_bound(n, bits);
    assert(n / 1 == n);
    assert(n % 1 == 0);
    assert(last_place(n, bits) == 1);
    assert(1 * last_place(n, bits) == 1 && n * last_place(n, bits) == n);
}

/// The last place of a number below two to the power of `size` weighs at most
/// two to the power of `size - bits`.
pub proof fn lemma_last_place_bound(q: nat, size: nat, bits: nat)
    requires
        q < vstd::arithmetic::power2::pow2(size),
        bits <= size,
    ensures
        last_place(q, bits) <= vstd::arithmetic::power2::pow2((size - bits) as nat),
{
    lemma_bit_length_bound(q, size);
    vstd::arithmetic::power2::lemma_pow2_pos((size - bits) as nat);
    if bit_length(q) > bits && bit_length(q) < size {
        vstd::arithmetic::power2::lemma_pow2_strictly_increases(
            (bit_length(q) - bits) as nat,
            (size - bits) as nat,
        );
    }
}

/// Rounding never passes a multiple `count` of two to the power of `shift` when
/// `count` needs no more than `bits` binary digits.
pub proof fn law_rounding_stops_at_short_multiples(n: nat, count: nat, shift: nat, bits: nat)
    requires
        count < vstd::arithmetic::power2::pow2(bits),
        n <= count * vstd::arithmetic::power2::pow2(shift),
    ensures
        nearest(n, 1, bits) <= count * vstd::arithmetic::power2::pow2(shift),
{
    let pow_shift = vstd::arithmetic::power2::pow2(shift);
    let top = count * pow_shift;
    let unit = last_place(n, bits);
    lemma_last_place_pos(n, bits);
    assert(n / 1 == n);
    if bit_length(n) > bits {
        let k = (bit_length(n) - bits) as nat;
        vstd::arithmetic::power2::lemma_pow2_adds(bits, shift);
        vstd::arithmetic::power2::lemma_pow2_pos(shift);
        assert(top < vstd::arithmetic::power2::pow2(bits + shift)) by (nonlinear_arith)
            requires
                top == count * pow_shift,
                pow_shift > 0,
                count < vstd::arithmetic::power2::pow2(bits),
                vstd::arithmetic::power2::pow2(bits) * pow_shift
                    == vstd::arithmetic::power2::pow2(bits + shift),
        ;
        lemma_bit_length_bound(n, bits + shift);
        assert(k <= shift);
        vstd::arithmetic::power2::lemma_pow2_adds(k, (shift - k) as nat);
        let half = vstd::arithmetic::power2::pow2((shift - k) as nat);
        assert(top == (count * half) * unit) by (nonlinear_arith)
            requires
                top == count * pow_shift,
                pow_shift == unit * half,
        ;
        lemma_rounding_stops(n, unit, count * half);
    } else {
        assert(n % 1 == 0);
    }
}

/// No multiple of `unit` next to `n` is above a multiple that is at least `n`.
proof fn lemma_rounding_stops(n: nat, unit: nat, count: nat)
    requires
        unit > 0,
        n <= count * unit,
    ensures
        (n / unit) * unit <= count * unit,
        n % unit != 0 ==> (n / unit + 1) * unit <= count * unit,
{
    vstd::arithmetic::div_mod::lemma_fundamental_div_mod(n as int, unit as int);
    let whole = n / unit;
    assert(unit * whole == whole * unit) by (nonlinear_arith);
    assert(whole <= count) by (nonlinear_arith)
        requires
            unit > 0,
            n <= count * unit,
            whole * unit <= n,
    ;
    if n % unit != 0 {
        assert(whole < count) by (nonlinear_arith)
            requires
                unit > 0,
                n <= count * unit,
                whole * unit < n,
        ;
    }
    assert(whole * unit <= count * unit) by (nonlinear_arith)
        requires
            whole <= count,
    ;
    if whole < count {
        assert((whole + 1) * unit <= count * unit) by (nonlinear_arith)
            requires
                whole + 1 <= count,
        ;
    }
}

/// The last place of zero is one.
pub proof fn lemma_last_place_of_nothing(bits: nat)
    ensures
        last_place(0, bits) == 1,
{
}

/// A whole number above zero is not rounded to zero.
pub proof fn lemma_nearest_is_positive(n: nat, bits: nat)
    requires
        n > 0,
        bits > 0,
    ensures
        nearest(n, 1, bits) > 0,
{
    let unit = last_place(n, bits);
    lemma_last_place_pos(n, bits);
    assert(n / 1 == n);
    assert(1 * unit == unit);
    let size = bit_length(n);
    if size > bits {
        lemma_bit_length_bound(n, (size - 1) as nat);
        if size - bits < size - 1 {
            vstd::arithmetic::power2::lemma_pow2_strictly_increases(
                (size - bits) as nat,
                (size - 1) as nat,
            );
        }
    }
    assert(unit <= n);
    vstd::arithmetic::div_mod::lemma_div_non_zero(n as int, unit as int);
    let whole = n / unit;
    assert(whole * unit > 0) by (nonlinear_arith)
        requires
            whole > 0,
            unit > 0,
    ;
    assert((whole + 1) * unit > 0) by (nonlinear_arith)
        requires
            whole > 0,
            unit > 0,
    ;
}

/// A multiple of two to the power of `shift` is kept as it is when the count needs no
/// more than `bits` binary digits.
pub proof fn law_short_multiples_are_kept(count: nat, shift: nat, bits: nat)
    requires
        count < vstd::arithmetic::power2::pow2(bits),
    ensures
        nearest(count * vstd::arithmetic::power2::pow2(shift), 1, bits) == count
            * vstd::arithmetic::power2::pow2(shift),
{
    let pow_shift = vstd::arithmetic::power2::pow2(shift);
    let top = count * pow_shift;
    let unit = last_place(top, bits);
    lemma_last_place_pos(top, bits);
    assert(top / 1 == top);
    if bit_length(top) > bits {
        let k = (bit_length(top) - bits) as nat;
        vstd::arithmetic::power2::lemma_pow2_adds(bits, shift);
        vstd::arithmetic::power2::lemma_pow2_pos(shift);
        assert(top < vstd::arithmetic::power2::pow2(bits + shift)) by (nonlinear_arith)
            requires
                top == count * pow_shift,
                pow_shift > 0,
                count < vstd::arithmetic::power2::pow2(bits),
                vstd::arithmetic::power2::pow2(bits) * pow_shift
                    == vstd::arithmetic::power2::pow2(bits + shift),
        ;
        lemma_bit_length_bound(top, bits + shift);
        vstd::arithmetic::power2::lemma_pow2_adds(k, (shift - k) as nat);
        let half = vstd::arithmetic::power2::pow2((shift - k) as nat);
        assert(top == (count * half) * unit) by (nonlinear_arith)
            requires
                top == count * pow_shift,
                pow_shift == unit * half,
        ;
        vstd::arithmetic::div_mod::lemma_fundamental_div_mod_converse(
            top as int,
            unit as int,
            (count * half) as int,
            0,
        );
    } else {
        assert(top % 1 == 0);
    }
    assert(1 * unit == unit);
}

/// A quotient that is a whole number is rounded as that number.
pub proof fn law_whole_quotients_round_as_numbers(n: nat, den: nat, bits: nat)
    requires
        den > 0,
    ensures
        nearest(n * den, den, bits) == nearest(n, 1, bits),
{
    let unit = last_place(n, bits);
    lemma_last_place_pos(n, bits);
    assert(n / 1 == n);
    vstd::arithmetic::div_mod::lemma_div_multiples_vanish(n as int, den as int);
    assert((n * den) / den == n) by {
        assert(n * den == den * n) by (nonlinear_arith);
    }
    let step = den * unit;
    let whole = n / unit;
    let rest = n % unit;
    vstd::arithmetic::div_mod::lemma_fundamental_div_mod(n as int, unit as int);
    assert(n * den == whole * step + den * rest) by (nonlinear_arith)
        requires
            n == unit * whole + rest,
            step == den * unit,
    ;
    assert(0 <= den * rest < step) by (nonlinear_arith)
        requires
            0 <= rest < unit,
            den > 0,
            step == den * unit,
    ;
    vstd::arithmetic::div_mod::lemma_fundamental_div_mod_converse(
        (n * den) as int,
        step as int,
        whole as int,
        (den * rest) as int,
    );
    assert((2 * (den * rest) > step) == (2 * rest > unit)) by (nonlinear_arith)
        requires
            den > 0,
            step == den * unit,
    ;
    assert((2 * (den * rest) == step) == (2 * rest == unit)) by (nonlinear_arith)
        requires
            den > 0,
            step == den * unit,
    ;
    assert(1 * unit == unit);
}

/// A quotient is rounded alike when it is extended by a factor.
pub proof fn law_extended_quotients_round_alike(num: nat, den: nat, factor: nat, bits: nat)
    requires
        den > 0,
        factor > 0,
    ensures
        nearest(num * factor, den * factor, bits) == nearest(num, den, bits),
{
    assert(den * factor > 0) by (nonlinear_arith)
        requires
            den > 0,
            factor > 0,
    ;
    let q = num / den;
    vstd::arithmetic::div_mod::lemma_fundamental_div_mod(num as int, den as int);
    lemma_extended_division(num, den, factor);
    let unit = last_place(q, bits);
    lemma_last_place_pos(q, bits);
    let step = den * unit;
    assert(step > 0) by (nonlinear_arith)
        requires
            den > 0,
            unit > 0,
            step == den * unit,
    ;
    assert((den * factor) * unit == step * factor) by (nonlinear_arith)
        requires
            step == den * unit,
    ;
    lemma_extended_division(num, step, factor);
    let rest = num % step;
    assert((2 * (rest * factor) > step * factor) == (2 * rest > step)) by (nonlinear_arith)
        requires
            factor > 0,
    ;
    assert((2 * (rest * factor) == step * factor) == (2 * rest == step)) by (nonlinear_arith)
        requires
            factor > 0,
    ;
}

proof fn lemma_extended_division(num: nat, den: nat, factor: nat)
    requires
        den > 0,
        factor > 0,
    ensures
        den * factor > 0,
        (num * factor) / (den * factor) == num / den,
        (num * factor) % (den * factor) == (num % den) * factor,
{
    let q = num / den;
    let rest = num % den;
    vstd::arithmetic::div_mod::lemma_fundamental_div_mod(num as int, den as int);
    assert(num * factor == q * (den * factor) + rest * factor && rest * factor < den * factor && den
        * factor > 0) by (nonlinear_arith)
        requires
            num == den * q + rest,
            rest < den,
            factor > 0,
            den > 0,
    ;
    vstd::arithmetic::div_mod::lemma_fundamental_div_mod_converse(
        (num * factor) as int,
        (den * factor) as int,
        q as int,
        (rest * factor) as int,
    );
}

/// The last place of a number is such that the number has at most `bits` digits from there
/// on, and exactly that many where the last place is not the unit.
pub proof fn law_the_last_place_keeps_the_digits(q: nat, bits: nat)
    requires
        bits > 0,
    ensures
        last_place(q, bits) >= 1,
        q < vstd::arithmetic::power2::pow2(bits) * last_place(q, bits),
        last_place(q, bits) > 1 ==> vstd::arithmetic::power2::pow2((bits - 1) as nat) * last_place(
            q,
            bits,
        ) <= q,
{
    let size = bit_length(q);
    lemma_last_place_pos(q, bits);
    lemma_bit_length_bound(q, size);
    if size > bits {
        let k = (size - bits) as nat;
        vstd::arithmetic::power2::lemma_pow2_adds(bits, k);
        vstd::arithmetic::power2::lemma_pow2_adds((bits - 1) as nat, k);
        lemma_bit_length_bound(q, (size - 1) as nat);
    } else {
        lemma_bit_length_bound(q, bits);
        assert(vstd::arithmetic::power2::pow2(bits) * 1 == vstd::arithmetic::power2::pow2(bits));
    }
}

/// A quotient in the middle between two multiples of its last place is rounded to the even
/// one.
pub proof fn law_ties_go_to_the_even_multiple(num: nat, den: nat, bits: nat, count: nat)
    requires
        den > 0,
        2 * num == (2 * count + 1) * (den * last_place(num / den, bits)),
    ensures
        nearest(num, den, bits) == (if count % 2 == 0 {
            count
        } else {
            count + 1
        }) * last_place(num / den, bits),
{
    lemma_last_place_pos(num / den, bits);
    let step = den * last_place(num / den, bits);
    assert(step > 0) by (nonlinear_arith)
        requires
            den > 0,
            last_place(num / den, bits) > 0,
            step == den * last_place(num / den, bits),
    ;
    let rest = num - count * step;
    assert(2 * rest == step && num == count * step + rest) by (nonlinear_arith)
        requires
            2 * num == (2 * count + 1) * step,
            rest == num - count * step,
    ;
    vstd::arithmetic::div_mod::lemma_fundamental_div_mod_converse(
        num as int,
        step as int,
        count as int,
        rest,
    );
}

} // verus!
