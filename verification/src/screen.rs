//! From pixels of a screenshot to points on the screen.
//!
//! A screenshot may have more pixels than the window that it shows. The ratio and
//! the points that follow from it are single-precision numbers; they are held as
//! whole counts of a small power of two, and rounded as single precision rounds.
use crate::double;
use crate::geometry;
use crate::rounding;
use vstd::prelude::*;

verus! {

/// One whole, for scale factors: two to the power of 64.
pub const SCALE_UNIT: u128 = 18446744073709551616;

/// One whole, for points: two to the power of 30.
pub const POINT_UNIT: u128 = 1073741824;

/// Place and logical size of a window.
#[derive(Clone, Copy, Debug, PartialEq, Eq, Structural)]
pub struct WindowFrame {
    pub x: i32,
    pub y: i32,
    pub width: u32,
    pub height: u32,
}

/// The single-precision number nearest to a whole number.
pub open spec fn single(n: nat) -> nat {
    rounding::nearest(n, 1, rounding::SINGLE_BITS as nat)
}

/// Physical pixels in a logical one, in single precision; a side of no pixels
/// counts as one pixel.
pub open spec fn axis_scale(physical: nat, logical: nat) -> nat {
    rounding::nearest(
        single(physical) * (SCALE_UNIT as nat),
        single(
            if logical < 1 {
                1
            } else {
                logical
            },
        ),
        rounding::SINGLE_BITS as nat,
    )
}

/// The scale factor is more than one tenth.
pub open spec fn is_plausible(scale: nat) -> bool {
    scale > rounding::nearest(SCALE_UNIT as nat, 10, rounding::SINGLE_BITS as nat)
}

/// Scale factors of both axes.
#[derive(Clone, Copy, Debug)]
pub struct ScreenScale {
    x: u128,
    y: u128,
}

impl ScreenScale {
    #[verifier::type_invariant]
    spec fn in_range(self) -> bool {
        0 < self.x && 0 < self.y
    }

    /// Scale factor of the horizontal axis, in units of two to the power of minus 64.
    pub closed spec fn horizontal(self) -> nat {
        self.x as nat
    }

    /// Scale factor of the vertical axis, in units of two to the power of minus 64.
    pub closed spec fn vertical(self) -> nat {
        self.y as nat
    }
}

fn axis(physical: u32, logical: u32) -> (r: u128)
    ensures
        r == axis_scale(physical as nat, logical as nat),
{
    let top: u128 = rounding::round_quotient(physical as u128, 1, rounding::SINGLE_BITS);
    let side: u128 = if logical < 1 {
        1
    } else {
        logical as u128
    };
    let bottom: u128 = rounding::round_quotient(side, 1, rounding::SINGLE_BITS);
    rounding::round_quotient(top * SCALE_UNIT, bottom, rounding::SINGLE_BITS)
}

/// The scale factors of a screenshot of `physical_w` by `physical_h` pixels. Where one
/// of them is not plausible, both are the whole number `fallback`.
pub fn compute_scale_factor(window: &WindowFrame, physical_w: u32, physical_h: u32, fallback: u32)
    -> (r: ScreenScale)
    requires
        fallback > 0,
    ensures
        ({
            let x = axis_scale(physical_w as nat, window.width as nat);
            let y = axis_scale(physical_h as nat, window.height as nat);
            if is_plausible(x) && is_plausible(y) {
                r.horizontal() == x && r.vertical() == y
            } else {
                r.horizontal() == fallback * SCALE_UNIT && r.vertical() == fallback * SCALE_UNIT
            }
        }),
{
    let x: u128 = axis(physical_w, window.width);
    let y: u128 = axis(physical_h, window.height);
    let least: u128 = rounding::round_quotient(SCALE_UNIT, 10, rounding::SINGLE_BITS);
    if x > least && y > least {
        ScreenScale { x, y }
    } else {
        let both: u128 = fallback as u128 * SCALE_UNIT;
        ScreenScale { x: both, y: both }
    }
}

/// The single-precision quotient of a pixel coordinate and a scale factor, cut to a
/// 32-bit whole number.
pub open spec fn logical_offset(pixel: nat, scale: nat) -> int {
    double::clamp_to_i32(
        (rounding::nearest(
            single(pixel) * (SCALE_UNIT as nat) * (POINT_UNIT as nat),
            scale,
            rounding::SINGLE_BITS as nat,
        ) / (POINT_UNIT as nat)) as int,
    )
}

fn offset_of(pixel: u32, scale: u128) -> (r: i32)
    requires
        0 < scale,
    ensures
        r == logical_offset(pixel as nat, scale as nat),
{
    let whole: u128 = rounding::round_quotient(pixel as u128, 1, rounding::SINGLE_BITS);
    let quotient: u128 = rounding::round_quotient(
        whole * SCALE_UNIT * POINT_UNIT,
        scale,
        rounding::SINGLE_BITS,
    );
    let offset: u128 = quotient / POINT_UNIT;
    if offset > 2147483647 {
        i32::MAX
    } else {
        offset as i32
    }
}

/// The point on the screen that a pixel of the screenshot shows; `None` when it is
/// beyond the range of screen coordinates.
pub fn screen_point(window: &WindowFrame, scale: &ScreenScale, px: u32, py: u32) -> (r: Option<
    (i32, i32),
>)
    ensures
        ({
            let x = window.x + logical_offset(px as nat, scale.horizontal());
            let y = window.y + logical_offset(py as nat, scale.vertical());
            match r {
                Some(p) => p.0 == x && p.1 == y,
                None => !geometry::fits_i32(x) || !geometry::fits_i32(y),
            }
        }),
{
    proof {
        use_type_invariant(scale);
    }
    let x: i64 = window.x as i64 + offset_of(px, scale.x) as i64;
    let y: i64 = window.y as i64 + offset_of(py, scale.y) as i64;
    if x > 2147483647 || y > 2147483647 {
        return None;
    }
    Some((x as i32, y as i32))
}

/// A size as a signed number: sizes from two to the power of 31 on are negative.
pub open spec fn signed(size: u32) -> int {
    if size > i32::MAX {
        size - 4294967296
    } else {
        size as int
    }
}

fn half_of(size: u32) -> (r: i32)
    ensures
        r == geometry::half(signed(size)),
{
    if size > 2147483647 {
        geometry::halved((size as i64 - 4294967296) as i32)
    } else {
        geometry::halved(size as i32)
    }
}

/// The middle of a window.
pub open spec fn middle(window: WindowFrame) -> (int, int) {
    (
        window.x + geometry::half(signed(window.width)),
        window.y + geometry::half(signed(window.height)),
    )
}

/// The middle of a window, where a click gives it the focus; `None` when it is beyond
/// the range of screen coordinates.
pub fn window_center(window: &WindowFrame) -> (r: Option<(i32, i32)>)
    ensures
        ({
            let at = middle(*window);
            match r {
                Some(p) => p.0 == at.0 && p.1 == at.1,
                None => !geometry::fits_i32(at.0) || !geometry::fits_i32(at.1),
            }
        }),
{
    match (
        window.x.checked_add(half_of(window.width)),
        window.y.checked_add(half_of(window.height)),
    ) {
        (Some(x), Some(y)) => Some((x, y)),
        _ => None,
    }
}

/// Where a screenshot has as many pixels as the window, the scale is one, and a pixel is
/// shown where it is in the screenshot.
pub proof fn law_unscaled_windows_keep_their_pixels(side: nat, pixel: nat)
    requires
        0 < side,
        pixel < rounding::SINGLE_LIMIT,
    ensures
        axis_scale(side, side) == SCALE_UNIT,
        is_plausible(axis_scale(side, side)),
        logical_offset(pixel, axis_scale(side, side)) == pixel,
{
    let bits = rounding::SINGLE_BITS as nat;
    let one = SCALE_UNIT as nat;
    let point = POINT_UNIT as nat;
    vstd::arithmetic::power2::lemma2_to64();
    vstd::arithmetic::power2::lemma2_to64_rest();
    rounding::law_short_multiples_are_kept(1, 64, bits);
    assert(rounding::nearest(one, 1, bits) == one);
    rounding::lemma_nearest_is_positive(side, bits);
    rounding::law_whole_quotients_round_as_numbers(one, single(side), bits);
    assert(single(side) * one == one * single(side)) by (nonlinear_arith);
    rounding::law_short_numbers_are_kept(pixel, bits);
    rounding::law_short_multiples_are_kept(pixel, 30, bits);
    rounding::law_whole_quotients_round_as_numbers(pixel * point, one, bits);
    assert(pixel * one * point == (pixel * point) * one) by (nonlinear_arith);
    assert((pixel * point) / point == pixel) by (nonlinear_arith)
        requires
            point == 1073741824,
    ;
    rounding::law_nearest_is_within_half_a_place(one, 10, bits);
    assert(one / 10 == 1844674407370955161);
    rounding::lemma_last_place_bound((one / 10) as nat, 61, bits);
}

/// Where a screenshot has `factor` times as many pixels as the window on a side, the scale
/// is that factor, and a pixel is shown at its offset over the factor, cut to a whole
/// number.
pub proof fn law_scaled_windows_divide_their_pixels(side: nat, factor: nat, pixel: nat)
    requires
        0 < side,
        0 < factor,
        factor * side < rounding::SINGLE_LIMIT,
        pixel < rounding::SINGLE_LIMIT,
    ensures
        axis_scale(factor * side, side) == factor * SCALE_UNIT,
        logical_offset(pixel, factor * (SCALE_UNIT as nat)) == pixel / factor,
{
    let bits = rounding::SINGLE_BITS as nat;
    let one = SCALE_UNIT as nat;
    let point = POINT_UNIT as nat;
    vstd::arithmetic::power2::lemma2_to64();
    vstd::arithmetic::power2::lemma2_to64_rest();
    assert(factor <= factor * side && side <= factor * side) by (nonlinear_arith)
        requires
            0 < side,
            0 < factor,
    ;
    rounding::law_short_numbers_are_kept(factor * side, bits);
    rounding::law_short_numbers_are_kept(side, bits);
    rounding::law_short_multiples_are_kept(factor, 64, bits);
    rounding::law_whole_quotients_round_as_numbers(factor * one, side, bits);
    assert((factor * side) * one == (factor * one) * side) by (nonlinear_arith);
    rounding::law_short_numbers_are_kept(pixel, bits);
    assert(pixel * one * point == (pixel * point) * one) by (nonlinear_arith);
    rounding::law_extended_quotients_round_alike(pixel * point, factor, one, bits);
    lemma_whole_part_survives(pixel, factor);
}

/// The last of 24 binary digits weighs little of the number.
proof fn lemma_place_is_small(q: nat)
    ensures
        ({
            let place = rounding::last_place(q, rounding::SINGLE_BITS as nat);
            place >= 1 && (place > 1 ==> 8388608 * place <= q)
        }),
{
    let bits = rounding::SINGLE_BITS as nat;
    let size = rounding::bit_length(q);
    if size > bits {
        let k = (size - bits) as nat;
        vstd::arithmetic::power2::lemma2_to64();
        vstd::arithmetic::power2::lemma_pow2_pos(k);
        vstd::arithmetic::power2::lemma_pow2_adds(k, 23);
        rounding::lemma_bit_length_bound(q, (size - 1) as nat);
        assert(vstd::arithmetic::power2::pow2(k) * 8388608 == 8388608
            * vstd::arithmetic::power2::pow2(k));
    }
}

/// Rounding a quotient of small numbers to single precision does not change its whole part.
proof fn lemma_whole_part_survives(pixel: nat, factor: nat)
    requires
        0 < factor < rounding::SINGLE_LIMIT,
        pixel < rounding::SINGLE_LIMIT,
    ensures
        rounding::nearest(
            pixel * (POINT_UNIT as nat),
            factor,
            rounding::SINGLE_BITS as nat,
        ) / (POINT_UNIT as nat) == pixel / factor,
{
    let bits = rounding::SINGLE_BITS as nat;
    let point = POINT_UNIT as nat;
    let top = pixel * point;
    let q = top / factor;
    let v = rounding::nearest(top, factor, bits);
    let place = rounding::last_place(q, bits);
    let whole = pixel / factor;
    let rest = pixel % factor;
    vstd::arithmetic::power2::lemma2_to64();
    vstd::arithmetic::power2::lemma2_to64_rest();
    vstd::arithmetic::div_mod::lemma_fundamental_div_mod(pixel as int, factor as int);
    assert(whole < 16777216) by (nonlinear_arith)
        requires
            pixel == factor * whole + rest,
            pixel < 16777216,
            factor > 0,
            rest >= 0,
    ;
    if rest == 0 {
        rounding::law_short_multiples_are_kept(whole, 30, bits);
        rounding::law_whole_quotients_round_as_numbers(whole * point, factor, bits);
        assert(top == (whole * point) * factor) by (nonlinear_arith)
            requires
                top == pixel * point,
                pixel == factor * whole,
        ;
        assert(v == whole * point);
        assert((whole * point) / point == whole) by (nonlinear_arith)
            requires
                point == 1073741824,
        ;
    } else {
        rounding::law_nearest_is_within_half_a_place(top, factor, bits);
        vstd::arithmetic::div_mod::lemma_fundamental_div_mod(top as int, factor as int);
        assert(factor * q <= top) by {
            assert(top % factor >= 0);
        }
        assert(factor * place < 2 * point) by {
            lemma_place_is_small(q);
            if place > 1 {
                assert(factor * place < 2 * point) by (nonlinear_arith)
                    requires
                        8388608 * place <= q,
                        factor * q <= top,
                        top == pixel * point,
                        pixel < 16777216,
                        point == 1073741824,
                        factor > 0,
                ;
            } else {
                assert(factor * place == factor) by (nonlinear_arith)
                    requires
                        place == 1,
                ;
            }
        }
        assert(whole * point < v && v < (whole + 1) * point) by (nonlinear_arith)
            requires
                2 * (factor * v) <= 2 * top + factor * place,
                2 * top <= 2 * (factor * v) + factor * place,
                factor * place < 2 * point,
                top == pixel * point,
                pixel == factor * whole + rest,
                1 <= rest < factor,
                factor > 0,
                point > 0,
        ;
        vstd::arithmetic::div_mod::lemma_fundamental_div_mod_converse(
            v as int,
            point as int,
            whole as int,
            v - whole * point,
        );
    }
}

/// A scale factor is plausible exactly when the screenshot has more than a tenth of the
/// pixels that the window has on that side.
pub proof fn law_plausible_scales_are_above_a_tenth(physical: nat, logical: nat)
    requires
        physical < 1048576,
        0 < logical < 1048576,
    ensures
        is_plausible(axis_scale(physical, logical)) <==> 10 * physical > logical,
{
    let bits = rounding::SINGLE_BITS as nat;
    let one = SCALE_UNIT as nat;
    let top = physical * one;
    let scale = rounding::nearest(top, logical, bits);
    let border = rounding::nearest(one, 10, bits);
    vstd::arithmetic::power2::lemma2_to64();
    vstd::arithmetic::power2::lemma2_to64_rest();
    rounding::law_short_numbers_are_kept(physical, bits);
    rounding::law_short_numbers_are_kept(logical, bits);
    rounding::law_nearest_is_within_half_a_place(one, 10, bits);
    rounding::law_nearest_is_within_half_a_place(top, logical, bits);
    assert(one / 10 == 1844674407370955161);
    rounding::lemma_last_place_bound(one / 10, 61, bits);
    let q = top / logical;
    let place = rounding::last_place(q, bits);
    vstd::arithmetic::div_mod::lemma_fundamental_div_mod(top as int, logical as int);
    let rest = top % logical;
    assert(logical * q <= top);
    lemma_place_is_small(q);
    if place == 1 {
        assert(logical * place <= 8388608) by (nonlinear_arith)
            requires
                place == 1,
                logical < 1048576,
        ;
    } else {
        assert(8388608 * (logical * place) <= top) by (nonlinear_arith)
            requires
                8388608 * place <= q,
                logical * q <= top,
        ;
    }
    let error = logical * place;
    assert(8388608 * error <= top || error <= 8388608);
    if 10 * physical == logical {
        rounding::law_extended_quotients_round_alike(one, 10, physical, bits);
        assert(one * physical == top) by (nonlinear_arith)
            requires
                top == physical * one,
        ;
    } else if 10 * physical > logical {
        assert(logical * scale > logical * border) by (nonlinear_arith)
            requires
                2 * top <= 2 * (logical * scale) + error,
                8388608 * error <= top || error <= 8388608,
                2 * (10 * border) <= 2 * one + 10 * 137438953472,
                top == physical * one,
                10 * physical >= logical + 1,
                0 < logical < 1048576,
                one == 18446744073709551616,
        ;
        assert(scale > border) by (nonlinear_arith)
            requires
                logical * scale > logical * border,
                logical > 0,
        ;
    } else {
        assert(logical * scale < logical * border) by (nonlinear_arith)
            requires
                2 * (logical * scale) <= 2 * top + error,
                8388608 * error <= top || error <= 8388608,
                2 * one <= 2 * (10 * border) + 10 * 137438953472,
                top == physical * one,
                10 * physical + 1 <= logical,
                0 < logical < 1048576,
                one == 18446744073709551616,
        ;
        assert(scale < border) by (nonlinear_arith)
            requires
                logical * scale < logical * border,
                logical > 0,
        ;
    }
}

/// A side of no pixels counts as one, and a window's middle is half of its size away from
/// its corner.
pub proof fn law_windows_have_a_middle(window: WindowFrame, physical: nat)
    ensures
        axis_scale(physical, 0) == axis_scale(physical, 1),
        window.width <= i32::MAX ==> ({
            let gap = 2 * (middle(window).0 - window.x);
            gap <= window.width <= gap + 1
        }),
        window.height <= i32::MAX ==> ({
            let gap = 2 * (middle(window).1 - window.y);
            gap <= window.height <= gap + 1
        }),
{
}

/// Whatever the scale is, a pixel is shown at its offset over the scale, cut to a whole
/// number, but for what rounding to single precision adds or takes: less than one part in
/// eight million of the offset, or of one pixel.
pub proof fn law_pixels_are_divided_by_the_scale(pixel: nat, scale: nat)
    requires
        pixel < rounding::SINGLE_LIMIT,
        0 < scale,
        pixel * SCALE_UNIT < 1073741824 * scale,
    ensures
        ({
            let offset = logical_offset(pixel, scale);
            let exact = pixel * SCALE_UNIT;
            &&& 8388608 * (offset * scale) <= 8388609 * exact + scale
            &&& 8388608 * exact <= 8388608 * ((offset + 1) * scale) + exact + scale
        }),
{
    let bits = rounding::SINGLE_BITS as nat;
    let one = SCALE_UNIT as nat;
    let point = POINT_UNIT as nat;
    vstd::arithmetic::power2::lemma2_to64();
    rounding::law_short_numbers_are_kept(pixel, bits);
    let exact = pixel * one;
    let top = exact * point;
    let v = rounding::nearest(top, scale, bits);
    let q = top / scale;
    let place = rounding::last_place(q, bits);
    rounding::law_nearest_is_within_half_a_place(top, scale, bits);
    vstd::arithmetic::div_mod::lemma_fundamental_div_mod(top as int, scale as int);
    assert(scale * q <= top);
    lemma_place_is_small(q);
    let error = scale * place;
    if place == 1 {
        assert(error == scale) by (nonlinear_arith)
            requires
                error == scale * place,
                place == 1,
        ;
    } else {
        assert(8388608 * error <= top) by (nonlinear_arith)
            requires
                error == scale * place,
                8388608 * place <= q,
                scale * q <= top,
        ;
    }
    assert(8388608 * error <= top + 8388608 * scale);
    let whole = v / point;
    let rest = v % point;
    vstd::arithmetic::div_mod::lemma_fundamental_div_mod(v as int, point as int);
    assert(scale * v <= top + error && top <= scale * v + error);
    assert(v < 2147483647 * point) by (nonlinear_arith)
        requires
            scale * v <= top + error,
            8388608 * error <= top + 8388608 * scale,
            top == exact * point,
            exact < 1073741824 * scale,
            point == 1073741824,
            scale > 0,
    ;
    assert(whole <= 2147483647) by (nonlinear_arith)
        requires
            v == point * whole + rest,
            v < 2147483647 * point,
            rest >= 0,
            point > 0,
    ;
    let offset = whole as int;
    assert(logical_offset(pixel, scale) == offset);
    lemma_offset_bounds(
        exact as int,
        scale as int,
        v as int,
        error as int,
        offset,
        rest as int,
    );
}

proof fn lemma_offset_bounds(exact: int, scale: int, v: int, error: int, offset: int, rest: int)
    requires
        0 <= exact,
        0 < scale,
        0 <= offset,
        v == 1073741824 * offset + rest,
        0 <= rest < 1073741824,
        2 * (scale * v) <= 2 * (exact * 1073741824) + error,
        2 * (exact * 1073741824) <= 2 * (scale * v) + error,
        8388608 * error <= exact * 1073741824 + 8388608 * scale,
    ensures
        8388608 * (offset * scale) <= 8388609 * exact + scale,
        8388608 * exact <= 8388608 * ((offset + 1) * scale) + exact + scale,
{
    let low = offset * scale;
    assert(1073741824 * low <= scale * v && scale * v <= 1073741824 * (low + scale))
        by (nonlinear_arith)
        requires
            v == 1073741824 * offset + rest,
            0 <= rest < 1073741824,
            low == offset * scale,
            0 < scale,
    ;
    assert((offset + 1) * scale == low + scale) by (nonlinear_arith)
        requires
            low == offset * scale,
    ;
}

/// A scale factor is the ratio of the pixels of the screenshot to those of the window, but
/// for what rounding to single precision adds or takes.
pub proof fn law_scales_are_ratios_of_the_sides(physical: nat, logical: nat)
    requires
        physical < rounding::SINGLE_LIMIT,
        0 < logical < rounding::SINGLE_LIMIT,
    ensures
        ({
            let given = logical * axis_scale(physical, logical);
            let exact = physical * SCALE_UNIT;
            &&& 8388608 * given <= 8388609 * exact + 8388608 * logical
            &&& 8388608 * exact <= 8388608 * given + exact + 8388608 * logical
        }),
{
    let bits = rounding::SINGLE_BITS as nat;
    let one = SCALE_UNIT as nat;
    vstd::arithmetic::power2::lemma2_to64();
    rounding::law_short_numbers_are_kept(physical, bits);
    rounding::law_short_numbers_are_kept(logical, bits);
    let top = physical * one;
    let q = top / logical;
    let place = rounding::last_place(q, bits);
    rounding::law_nearest_is_within_half_a_place(top, logical, bits);
    vstd::arithmetic::div_mod::lemma_fundamental_div_mod(top as int, logical as int);
    assert(logical * q <= top);
    lemma_place_is_small(q);
    let error = logical * place;
    if place == 1 {
        assert(error == logical) by (nonlinear_arith)
            requires
                error == logical * place,
                place == 1,
        ;
    } else {
        assert(8388608 * error <= top) by (nonlinear_arith)
            requires
                error == logical * place,
                8388608 * place <= q,
                logical * q <= top,
        ;
    }
}

} // verus!
