//! Icons and templates: how large a template has to be, and where its best match
//! lies.
use crate::geometry;
use crate::rounding;
use crate::score::Score;
use vstd::prelude::*;

verus! {

/// Width of the frame that the templates were cut from.
pub const TEMPLATE_REFERENCE_PHYSICAL_WIDTH: u32 = 3000;

/// One whole, for scale factors: two to the power of 64.
pub const SCALE_UNIT: u128 = 18446744073709551616;

/// The double-precision ratio of a frame width to the reference width.
pub open spec fn scale_factor(width: nat) -> nat {
    rounding::nearest(
        width * (SCALE_UNIT as nat),
        TEMPLATE_REFERENCE_PHYSICAL_WIDTH as nat,
        rounding::DOUBLE_BITS as nat,
    )
}

/// The scale factor is more than one hundredth away from one.
pub open spec fn needs_scaling(width: nat) -> bool {
    let factor = scale_factor(width);
    let gap = if factor >= SCALE_UNIT {
        factor - SCALE_UNIT
    } else {
        SCALE_UNIT - factor
    };
    rounding::nearest(gap as nat, 1, rounding::DOUBLE_BITS as nat) > rounding::nearest(
        SCALE_UNIT as nat,
        100,
        rounding::DOUBLE_BITS as nat,
    )
}

/// A side of a template in a frame of the given width: the product rounded to the
/// nearest whole pixel, halves up, and at least one.
pub open spec fn scaled_side(side: nat, width: nat) -> int {
    let product = rounding::nearest(
        side * scale_factor(width),
        1,
        rounding::DOUBLE_BITS as nat,
    );
    let pixels = (product + SCALE_UNIT / 2) / (SCALE_UNIT as int);
    geometry::at_least_one(geometry::min_int(pixels, i32::MAX as int))
}

/// How a template is resized before it is compared.
#[derive(Clone, Copy, Debug, PartialEq, Eq, Structural)]
pub struct TemplateScaling {
    pub w: i32,
    pub h: i32,
    /// The template gets smaller.
    pub shrinks: bool,
}

fn factor_of(width: u32) -> (r: u128)
    ensures
        r == scale_factor(width as nat),
        r <= 52818775009509558395289600,
{
    let top: u128 = width as u128 * SCALE_UNIT;
    let r: u128 = rounding::round_quotient(
        top,
        TEMPLATE_REFERENCE_PHYSICAL_WIDTH as u128,
        rounding::DOUBLE_BITS,
    );
    r
}

fn side_of(side: u32, factor: u128, Ghost(width): Ghost<nat>) -> (r: i32)
    requires
        side <= i32::MAX,
        factor == scale_factor(width),
        factor <= 52818775009509558395289600,
    ensures
        r == scaled_side(side as nat, width),
{
    assert(side * factor <= 2147483647 * 52818775009509558395289600) by (nonlinear_arith)
        requires
            side <= 2147483647,
            factor <= 52818775009509558395289600,
    ;
    let product: u128 = rounding::round_quotient(
        side as u128 * factor,
        1,
        rounding::DOUBLE_BITS,
    );
    let pixels: u128 = (product + SCALE_UNIT / 2) / SCALE_UNIT;
    if pixels > 2147483647 {
        i32::MAX
    } else if pixels < 1 {
        1
    } else {
        pixels as i32
    }
}

/// The size of a template of `cols` by `rows` pixels in a frame of the given width;
/// `None` where it is used as it is.
pub fn template_scaling(cols: u32, rows: u32, width: u32) -> (r: Option<TemplateScaling>)
    requires
        cols <= i32::MAX,
        rows <= i32::MAX,
    ensures
        match r {
            Some(size) => {
                &&& needs_scaling(width as nat)
                &&& size.w == scaled_side(cols as nat, width as nat)
                &&& size.h == scaled_side(rows as nat, width as nat)
                &&& size.shrinks == (scale_factor(width as nat) < SCALE_UNIT)
            },
            None => !needs_scaling(width as nat),
        },
{
    let factor: u128 = factor_of(width);
    let gap: u128 = if factor >= SCALE_UNIT {
        factor - SCALE_UNIT
    } else {
        SCALE_UNIT - factor
    };
    let apart: u128 = rounding::round_quotient(gap, 1, rounding::DOUBLE_BITS);
    if apart > rounding::round_quotient(SCALE_UNIT, 100, rounding::DOUBLE_BITS) {
        Some(
            TemplateScaling {
                w: side_of(cols, factor, Ghost(width as nat)),
                h: side_of(rows, factor, Ghost(width as nat)),
                shrinks: factor < SCALE_UNIT,
            },
        )
    } else {
        None
    }
}

/// Templates are used as they are in frames of the reference width.
pub proof fn law_reference_width_needs_no_scaling()
    ensures
        !needs_scaling(TEMPLATE_REFERENCE_PHYSICAL_WIDTH as nat),
        scale_factor(TEMPLATE_REFERENCE_PHYSICAL_WIDTH as nat) == SCALE_UNIT,
{
    let bits = rounding::DOUBLE_BITS as nat;
    let width = TEMPLATE_REFERENCE_PHYSICAL_WIDTH as nat;
    let one = SCALE_UNIT as nat;
    assert((width * one) / width == one);
    vstd::arithmetic::power2::lemma2_to64();
    vstd::arithmetic::power2::lemma2_to64_rest();
    vstd::arithmetic::power2::lemma_pow2_unfold(65);
    rounding::lemma_bit_length_bound(one, 64);
    rounding::lemma_bit_length_bound(one, 65);
    let place = rounding::last_place(one, bits);
    assert(place == 4096);
    let step = width * place;
    assert(step == 12288000);
    assert((width * one) / step == 4503599627370496);
    assert((width * one) % step == 0);
    assert(scale_factor(width) == 4503599627370496 * place);
    rounding::law_short_numbers_are_kept(0, bits);
    rounding::law_nearest_is_within_half_a_place(one, 100, bits);
    assert(one / 100 == 184467440737095516);
    rounding::lemma_bit_length_bound((one / 100) as nat, 58);
    rounding::lemma_last_place_bound((one / 100) as nat, 58, bits);
}

/// The middle of an icon and its similarity, when it is similar enough. `x` and `y`
/// are the corner of the best match of a template of `cols` by `rows` pixels.
pub fn find_icon_opencv(
    x: u32,
    y: u32,
    cols: u32,
    rows: u32,
    similarity: Score,
    min_confidence: Score,
) -> (r: Option<((u32, u32), Score)>)
    requires
        x <= i32::MAX,
        y <= i32::MAX,
        cols <= i32::MAX,
        rows <= i32::MAX,
    ensures
        r == (if similarity.at_least(min_confidence) {
            Some((((x + cols / 2) as u32, (y + rows / 2) as u32), similarity))
        } else {
            None
        }),
{
    if similarity.is_at_least(&min_confidence) {
        Some(((x + cols / 2, y + rows / 2), similarity))
    } else {
        None
    }
}

/// Physical pixels in a logical one, by operating system: two on macOS, one
/// elsewhere.
pub fn get_screen_scale_factor(is_macos: bool) -> (r: u32)
    ensures
        r == (if is_macos {
            2u32
        } else {
            1u32
        }),
{
    if is_macos {
        2
    } else {
        1
    }
}

/// A side of a template is resized to the whole number of pixels nearest to its length
/// times the width of the frame over the reference width, and to one pixel at least.
pub proof fn law_sides_are_scaled_with_the_frame(side: nat, width: nat)
    requires
        side < 1048576,
        width < 1048576,
    ensures
        ({
            let pixels = scaled_side(side, width);
            &&& pixels >= 1
            &&& 2 * (3000 * pixels) <= 2 * (side * width) + 3000 || pixels == 1
            &&& 2 * (side * width) <= 2 * (3000 * pixels) + 3000
        }),
{
    let bits = rounding::DOUBLE_BITS as nat;
    let one = SCALE_UNIT as nat;
    let factor = scale_factor(width);
    let exact = side * factor;
    let product = rounding::nearest(exact, 1, bits);
    vstd::arithmetic::power2::lemma2_to64();
    vstd::arithmetic::power2::lemma2_to64_rest();
    vstd::arithmetic::power2::lemma_pow2_adds(64, 20);
    vstd::arithmetic::power2::lemma_pow2_adds(64, 40);
    let top = width * one;
    assert(top < 1048576 * one) by (nonlinear_arith)
        requires
            top == width * one,
            width < 1048576,
            one > 0,
    ;
    rounding::law_nearest_is_within_half_a_place(top, 3000, bits);
    rounding::lemma_last_place_bound(top / 3000, 84, bits);
    let p = rounding::last_place(top / 3000, bits);
    assert(p <= 2147483648);
    // The product before it is rounded.
    assert(6000 * exact <= 2 * (side * width) * one + 3000 * 2147483648 * 1048576 && 2 * (side
        * width) * one <= 6000 * exact + 3000 * 2147483648 * 1048576) by (nonlinear_arith)
        requires
            exact == side * factor,
            2 * (3000 * factor) <= 2 * top + 3000 * p,
            2 * top <= 2 * (3000 * factor) + 3000 * p,
            p <= 2147483648,
            top == width * one,
            side < 1048576,
    ;
    assert(side * width < 1099511627776) by (nonlinear_arith)
        requires
            side < 1048576,
            width < 1048576,
    ;
    let area = side * width;
    assert(area * one <= 1099511627776 * one) by (nonlinear_arith)
        requires
            area < 1099511627776,
    ;
    assert(2 * (side * width) * one == 2 * (area * one)) by (nonlinear_arith)
        requires
            area == side * width,
    ;
    assert(exact < 1099511627776 * one);
    assert(exact / 1 == exact);
    rounding::law_nearest_is_within_half_a_place(exact, 1, bits);
    rounding::lemma_last_place_bound(exact, 104, bits);
    let r = rounding::last_place(exact, bits);
    vstd::arithmetic::power2::lemma_pow2_unfold(51);
    assert(r <= 2251799813685248);
    let raised: int = (product + 9223372036854775808) as int;
    let whole: int = raised / (one as int);
    let rest: int = raised % (one as int);
    vstd::arithmetic::div_mod::lemma_fundamental_div_mod(raised, one as int);
    assert(0 <= rest < one);
    assert(0 <= whole <= 1099511627776) by (nonlinear_arith)
        requires
            raised == one * whole + rest,
            raised == product + 9223372036854775808,
            0 <= rest < one,
            product <= 1099511627776 * one,
            product >= 0,
            one == 18446744073709551616,
    ;
    assert(2 * (3000 * whole) <= 2 * area + 3000 && 2 * area <= 2 * (3000 * whole) + 3000) by {
        lemma_nearest_whole(area as int, exact as int, product as int, whole, rest);
    }
}

proof fn lemma_nearest_whole(area: int, exact: int, product: int, whole: int, rest: int)
    requires
        product + 9223372036854775808 == 18446744073709551616 * whole + rest,
        0 <= rest < 18446744073709551616,
        6000 * exact <= 2 * (area * 18446744073709551616) + 3000 * 2147483648 * 1048576,
        2 * (area * 18446744073709551616) <= 6000 * exact + 3000 * 2147483648 * 1048576,
        2 * product <= 2 * exact + 2251799813685248,
        2 * exact <= 2 * product + 2251799813685248,
    ensures
        2 * (3000 * whole) <= 2 * area + 3000,
        2 * area <= 2 * (3000 * whole) + 3000,
{
}

/// Templates are resized where the frame is more than 30 pixels wider or narrower than the
/// one that they were cut from, and used as they are where it is less than 30 off.
pub proof fn law_templates_are_scaled_in_other_frames(width: nat)
    requires
        width < 1048576,
    ensures
        2971 <= width <= 3029 ==> !needs_scaling(width),
        width <= 2969 || width >= 3031 ==> needs_scaling(width),
        width < 3000 ==> scale_factor(width) < SCALE_UNIT,
        width > 3000 ==> scale_factor(width) > SCALE_UNIT,
{
    let bits = rounding::DOUBLE_BITS as nat;
    let one = SCALE_UNIT as nat;
    let factor = scale_factor(width);
    let top = width * one;
    vstd::arithmetic::power2::lemma2_to64();
    vstd::arithmetic::power2::lemma2_to64_rest();
    vstd::arithmetic::power2::lemma_pow2_adds(64, 20);
    assert(top < 1048576 * one) by (nonlinear_arith)
        requires
            top == width * one,
            width < 1048576,
            one > 0,
    ;
    rounding::law_nearest_is_within_half_a_place(top, 3000, bits);
    rounding::lemma_last_place_bound(top / 3000, 84, bits);
    let gap = if factor >= one {
        (factor - one) as nat
    } else {
        (one - factor) as nat
    };
    assert(gap / 1 == gap);
    assert(gap < 1048576 * one);
    rounding::law_nearest_is_within_half_a_place(gap, 1, bits);
    rounding::lemma_last_place_bound(gap, 84, bits);
    rounding::law_nearest_is_within_half_a_place(one, 100, bits);
    rounding::lemma_last_place_bound((one / 100) as nat, 84, bits);
}

} // verus!
