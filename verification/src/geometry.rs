//! Pixel rectangles and the regions of a frame.
use crate::double;
use crate::double::Double;
use crate::rounding;
use vstd::prelude::*;

verus! {

/// A rectangle of whole pixels.
#[derive(Clone, Copy, Debug, PartialEq, Eq, Structural)]
pub struct Rect {
    pub x: i32,
    pub y: i32,
    pub w: i32,
    pub h: i32,
}

pub open spec fn at_least_one(n: int) -> int {
    if n < 1 {
        1
    } else {
        n
    }
}

pub open spec fn fits_i32(n: int) -> bool {
    i32::MIN <= n <= i32::MAX
}

pub open spec fn max_int(a: int, b: int) -> int {
    if a >= b {
        a
    } else {
        b
    }
}

pub open spec fn min_int(a: int, b: int) -> int {
    if a <= b {
        a
    } else {
        b
    }
}

/// Half of `n`, cut towards zero.
pub open spec fn half(n: int) -> int {
    if n < 0 {
        -((-n) / 2)
    } else {
        n / 2
    }
}

/// `r` is the region of a frame between the given shares of its sides, at least
/// one pixel wide and high.
pub open spec fn is_region(
    r: Rect,
    frame_w: int,
    frame_h: int,
    left: nat,
    top: nat,
    right: nat,
    bottom: nat,
) -> bool {
    &&& r.x == double::scaled(frame_w, left as int)
    &&& r.y == double::scaled(frame_h, top as int)
    &&& r.w == at_least_one(double::scaled(frame_w, double::rounded_difference(right, left)))
    &&& r.h == at_least_one(double::scaled(frame_h, double::rounded_difference(bottom, top)))
}

/// The region of a frame between the given shares of its sides.
pub fn region(
    frame_w: i32,
    frame_h: i32,
    left: &Double,
    top: &Double,
    right: &Double,
    bottom: &Double,
) -> (r: Rect)
    ensures
        is_region(r, frame_w as int, frame_h as int, left@, top@, right@, bottom@),
{
    let w: i32 = left.span_of(right, frame_w as i64);
    let h: i32 = top.span_of(bottom, frame_h as i64);
    Rect {
        x: left.of(frame_w as i64),
        y: top.of(frame_h as i64),
        w: if w < 1 {
            1
        } else {
            w
        },
        h: if h < 1 {
            1
        } else {
            h
        },
    }
}

/// A region lies inside its frame wherever its far shares leave it at least one
/// whole pixel past its corner.
pub proof fn law_region_lies_in_the_frame(
    r: Rect,
    frame_w: int,
    frame_h: int,
    left: nat,
    top: nat,
    right: nat,
    bottom: nat,
)
    requires
        is_region(r, frame_w, frame_h, left, top, right, bottom),
        0 <= frame_w <= i32::MAX,
        0 <= frame_h <= i32::MAX,
        left <= right <= double::UNITS_PER_ONE,
        top <= bottom <= double::UNITS_PER_ONE,
        r.x < frame_w,
        r.y < frame_h,
    ensures
        0 <= r.x,
        0 <= r.y,
        r.x + r.w <= frame_w,
        r.y + r.h <= frame_h,
{
    double::law_region_is_within_the_extent(frame_w, left, right);
    double::law_region_is_within_the_extent(frame_h, top, bottom);
}

/// The smaller of two numbers.
pub fn smaller(a: i64, b: i64) -> (r: i64)
    ensures
        r == min_int(a as int, b as int),
{
    if a <= b {
        a
    } else {
        b
    }
}

/// The larger of two numbers.
pub fn larger(a: i64, b: i64) -> (r: i64)
    ensures
        r == max_int(a as int, b as int),
{
    if a >= b {
        a
    } else {
        b
    }
}

/// Half of `n`, cut towards zero.
pub fn halved(n: i32) -> (r: i32)
    ensures
        r == half(n as int),
{
    if n < 0 {
        let size: u32 = (-(n as i64)) as u32;
        -((size / 2) as i32)
    } else {
        (n as u32 / 2) as i32
    }
}

/// `r` is `rect` widened by `margin` on every side and cut to an image of
/// `width` by `height` pixels.
pub open spec fn is_padded(r: Rect, rect: Rect, margin: int, width: int, height: int) -> bool {
    &&& r.x == max_int(rect.x - margin, 0)
    &&& r.y == max_int(rect.y - margin, 0)
    &&& r.w == min_int(rect.w + 2 * margin, width - r.x)
    &&& r.h == min_int(rect.h + 2 * margin, height - r.y)
}

/// Widens `rect` by `margin` on every side and cuts it to the image; `None` when
/// nothing of it is left.
pub fn padded(rect: &Rect, margin: u8, width: i32, height: i32) -> (r: Option<Rect>)
    ensures
        match r {
            Some(cut) => is_padded(cut, *rect, margin as int, width as int, height as int) && cut.w
                > 0 && cut.h > 0,
            None => {
                ||| min_int(rect.w + 2 * margin, width - max_int(rect.x - margin, 0)) <= 0
                ||| min_int(rect.h + 2 * margin, height - max_int(rect.y - margin, 0)) <= 0
            },
        },
{
    let x: i64 = larger(rect.x as i64 - margin as i64, 0);
    let y: i64 = larger(rect.y as i64 - margin as i64, 0);
    let w: i64 = smaller(rect.w as i64 + 2 * margin as i64, width as i64 - x);
    let h: i64 = smaller(rect.h as i64 + 2 * margin as i64, height as i64 - y);
    if w <= 0 || h <= 0 {
        return None;
    }
    Some(Rect { x: x as i32, y: y as i32, w: w as i32, h: h as i32 })
}

/// One whole, for shares of an area: two to the power of 64.
pub const AREA_UNIT: u128 = 18446744073709551616;

/// Area that two rectangles share.
pub open spec fn shared_area(a: Rect, b: Rect) -> int {
    let w = min_int(a.x + a.w, b.x + b.w) - max_int(a.x as int, b.x as int);
    let h = min_int(a.y + a.h, b.y + b.h) - max_int(a.y as int, b.y as int);
    max_int(w, 0) * max_int(h, 0)
}

/// The shared area is more than three tenths of the smaller area, all of it in
/// double precision.
pub open spec fn overlap_significantly(a: Rect, b: Rect) -> bool {
    let bits = rounding::DOUBLE_BITS as nat;
    let shared = shared_area(a, b);
    let smallest = max_int(min_int(a.w * a.h, b.w * b.h), 1);
    shared > 0 && rounding::nearest(
        rounding::nearest(shared as nat, 1, bits) * (AREA_UNIT as nat),
        rounding::nearest(smallest as nat, 1, bits),
        bits,
    ) > rounding::nearest(3 * AREA_UNIT as nat, 10, bits)
}

/// Whether two rectangles lie in practically the same place.
pub fn rects_overlap_significantly(a: &Rect, b: &Rect) -> (r: bool)
    ensures
        r == overlap_significantly(*a, *b),
{
    let x1: i64 = larger(a.x as i64, b.x as i64);
    let y1: i64 = larger(a.y as i64, b.y as i64);
    let x2: i64 = smaller(a.x as i64 + a.w as i64, b.x as i64 + b.w as i64);
    let y2: i64 = smaller(a.y as i64 + a.h as i64, b.y as i64 + b.h as i64);
    let w: i64 = larger(x2 - x1, 0);
    let h: i64 = larger(y2 - y1, 0);
    assert(0 <= w <= 2147483647 && 0 <= h <= 2147483647);
    assert(0 <= w * h <= 2147483647 * 2147483647) by (nonlinear_arith)
        requires
            0 <= w <= 2147483647,
            0 <= h <= 2147483647,
    ;
    let shared: i64 = w * h;
    assert(shared == shared_area(*a, *b));
    if shared <= 0 {
        return false;
    }
    let area_a: i64 = area(a);
    let area_b: i64 = area(b);
    let smallest: i64 = larger(smaller(area_a, area_b), 1);
    let top: u128 = rounding::round_quotient(shared as u128, 1, rounding::DOUBLE_BITS);
    let bottom: u128 = rounding::round_quotient(smallest as u128, 1, rounding::DOUBLE_BITS);
    let share: u128 = rounding::round_quotient(top * AREA_UNIT, bottom, rounding::DOUBLE_BITS);
    share > rounding::round_quotient(3 * AREA_UNIT, 10, rounding::DOUBLE_BITS)
}

fn area(r: &Rect) -> (n: i64)
    ensures
        n == r.w * r.h,
{
    let w: i64 = r.w as i64;
    let h: i64 = r.h as i64;
    assert(-4611686018427387904 <= w * h <= 4611686018427387904) by (nonlinear_arith)
        requires
            -2147483648 <= w <= 2147483647,
            -2147483648 <= h <= 2147483647,
    ;
    w * h
}

/// Half of a number is off by less than one when it is doubled, never away from zero, and
/// of the same size for the number with the other sign.
pub proof fn law_halves_are_cut_towards_zero(n: int)
    ensures
        n >= 0 ==> 2 * half(n) <= n <= 2 * half(n) + 1,
        half(-n) == -half(n),
{
}

/// Column `x` of row `y` lies in the rectangle.
pub open spec fn has_pixel(r: Rect, x: int, y: int) -> bool {
    r.x <= x < r.x + r.w && r.y <= y < r.y + r.h
}

/// Rectangles without a common pixel do not lie in the same place, however near they are
/// in one of the two directions.
pub proof fn law_rectangles_apart_do_not_overlap(a: Rect, b: Rect)
    requires
        forall|x: int, y: int| #[trigger] has_pixel(a, x, y) ==> !has_pixel(b, x, y),
    ensures
        !overlap_significantly(a, b),
        !overlap_significantly(b, a),
        shared_area(a, b) == 0,
{
    let left = max_int(a.x as int, b.x as int);
    let top = max_int(a.y as int, b.y as int);
    let w = min_int(a.x + a.w, b.x + b.w) - left;
    let h = min_int(a.y + a.h, b.y + b.h) - top;
    if w > 0 && h > 0 {
        assert(has_pixel(a, left, top));
        assert(has_pixel(b, left, top));
    }
    assert(max_int(w, 0) * max_int(h, 0) == 0) by (nonlinear_arith)
        requires
            w <= 0 || h <= 0,
            max_int(w, 0) == 0 || max_int(h, 0) == 0,
    ;
}

/// Two rectangles share as many pixels as the rectangle that their common pixels make up
/// has.
pub proof fn law_shared_area_counts_the_common_pixels(
    a: Rect,
    b: Rect,
    left: int,
    top: int,
    right: int,
    bottom: int,
)
    requires
        left < right,
        top < bottom,
        forall|x: int, y: int|
            #![trigger has_pixel(a, x, y)]
            has_pixel(a, x, y) && has_pixel(b, x, y) <==> left <= x < right && top <= y < bottom,
    ensures
        shared_area(a, b) == (right - left) * (bottom - top),
        0 < shared_area(a, b) <= a.w * a.h,
        shared_area(a, b) <= b.w * b.h,
{
    let x1 = max_int(a.x as int, b.x as int);
    let y1 = max_int(a.y as int, b.y as int);
    let x2 = min_int(a.x + a.w, b.x + b.w);
    let y2 = min_int(a.y + a.h, b.y + b.h);
    assert(has_pixel(a, left, top) && has_pixel(b, left, top));
    assert(has_pixel(a, right - 1, bottom - 1) && has_pixel(b, right - 1, bottom - 1));
    assert(has_pixel(a, x1, y1) && has_pixel(b, x1, y1));
    assert(has_pixel(a, x2 - 1, y2 - 1) && has_pixel(b, x2 - 1, y2 - 1));
    let w = right - left;
    let h = bottom - top;
    assert(x2 - x1 == w && y2 - y1 == h);
    assert(0 < w * h <= a.w * a.h && w * h <= b.w * b.h) by (nonlinear_arith)
        requires
            0 < w <= a.w,
            0 < h <= a.h,
            w <= b.w,
            h <= b.h,
    ;
}

/// A share of an area in units of one over two to the power of 64, rounded, is above three
/// tenths exactly when the share itself is.
proof fn lemma_shares_of_areas(shared: nat, smallest: nat)
    requires
        0 < shared <= smallest,
        smallest < 281474976710656,
    ensures
        ({
            let bits = rounding::DOUBLE_BITS as nat;
            rounding::nearest(shared * (AREA_UNIT as nat), smallest, bits) > rounding::nearest(
                (3 * AREA_UNIT) as nat,
                10,
                bits,
            ) <==> 10 * shared > 3 * smallest
        }),
{
    let bits = rounding::DOUBLE_BITS as nat;
    let unit = AREA_UNIT as nat;
    let whole = shared * unit;
    let limit = (3 * AREA_UNIT) as nat;
    let share = rounding::nearest(whole, smallest, bits);
    let border = rounding::nearest(limit, 10, bits);
    vstd::arithmetic::power2::lemma2_to64();
    vstd::arithmetic::power2::lemma2_to64_rest();
    vstd::arithmetic::power2::lemma_pow2_unfold(65);
    rounding::law_nearest_is_within_half_a_place(limit, 10, bits);
    rounding::law_nearest_is_within_half_a_place(whole, smallest, bits);
    assert(limit / 10 < 9223372036854775808);
    rounding::lemma_last_place_bound(limit / 10, 63, bits);
    let q = whole / smallest;
    let place = rounding::last_place(q, bits);
    assert(whole <= smallest * unit) by (nonlinear_arith)
        requires
            whole == shared * unit,
            shared <= smallest,
    ;
    assert(q <= unit) by (nonlinear_arith)
        requires
            q == whole / smallest,
            whole <= smallest * unit,
            smallest > 0,
    ;
    rounding::lemma_last_place_bound(q, 65, bits);
    assert(place <= 4096);
    if 10 * shared > 3 * smallest {
        // The share is above the border by a tenth of a unit over the smaller area at least.
        assert(smallest * share > smallest * border) by (nonlinear_arith)
            requires
                2 * whole <= 2 * (smallest * share) + smallest * place,
                place <= 4096,
                whole == shared * unit,
                10 * shared >= 3 * smallest + 1,
                2 * (10 * border) <= 2 * (3 * unit) + 10 * 1024,
                unit == 18446744073709551616,
                0 < smallest < 281474976710656,
        ;
        assert(share > border) by (nonlinear_arith)
            requires
                smallest * share > smallest * border,
                smallest > 0,
        ;
    } else if 10 * shared == 3 * smallest {
        assert(smallest % 10 == 0 && shared == 3 * (smallest / 10));
        let factor = smallest / 10;
        rounding::law_extended_quotients_round_alike(limit, 10, factor, bits);
        assert(limit * factor == whole) by (nonlinear_arith)
            requires
                limit == 3 * unit,
                whole == shared * unit,
                shared == 3 * factor,
        ;
        assert(10 * factor == smallest);
        assert(share == border);
    } else {
        assert(smallest * share <= smallest * border) by (nonlinear_arith)
            requires
                2 * (smallest * share) <= 2 * whole + smallest * place,
                place <= 4096,
                whole == shared * unit,
                10 * shared + 1 <= 3 * smallest,
                2 * (3 * unit) <= 2 * (10 * border) + 10 * 1024,
                unit == 18446744073709551616,
                0 < smallest < 281474976710656,
        ;
        assert(share <= border) by (nonlinear_arith)
            requires
                smallest * share <= smallest * border,
                smallest > 0,
        ;
    }
}

/// Rectangles lie in the same place exactly when their common pixels are more than three
/// tenths of the pixels of the smaller one.
pub proof fn law_overlap_is_more_than_three_tenths(
    a: Rect,
    b: Rect,
    left: int,
    top: int,
    right: int,
    bottom: int,
)
    requires
        left < right,
        top < bottom,
        forall|x: int, y: int|
            #![trigger has_pixel(a, x, y)]
            has_pixel(a, x, y) && has_pixel(b, x, y) <==> left <= x < right && top <= y < bottom,
        a.w * a.h < 281474976710656,
        b.w * b.h < 281474976710656,
    ensures
        overlap_significantly(a, b) <==> (10 * ((right - left) * (bottom - top)) > 3 * (a.w * a.h)
            || 10 * ((right - left) * (bottom - top)) > 3 * (b.w * b.h)),
{
    law_shared_area_counts_the_common_pixels(a, b, left, top, right, bottom);
    let bits = rounding::DOUBLE_BITS as nat;
    let shared = shared_area(a, b) as nat;
    let smallest = max_int(min_int(a.w * a.h, b.w * b.h), 1) as nat;
    vstd::arithmetic::power2::lemma2_to64_rest();
    rounding::law_short_numbers_are_kept(shared, bits);
    rounding::law_short_numbers_are_kept(smallest, bits);
    lemma_shares_of_areas(shared, smallest);
}

/// A rectangle that is widened and cut lies in the image, is no larger than the widened
/// one, and holds every pixel of the image that the rectangle itself holds. Where the
/// margin does not reach over the left and the upper border, it holds exactly the pixels of
/// the image that are no further from the rectangle than the margin.
pub proof fn law_padded_rectangles_stay_in_the_image(
    r: Rect,
    rect: Rect,
    margin: int,
    width: int,
    height: int,
    x: int,
    y: int,
)
    requires
        is_padded(r, rect, margin, width, height),
        margin >= 0,
    ensures
        r.x >= 0 && r.y >= 0 && r.x + r.w <= width && r.y + r.h <= height,
        r.w <= rect.w + 2 * margin && r.h <= rect.h + 2 * margin,
        has_pixel(rect, x, y) && 0 <= x < width && 0 <= y < height ==> has_pixel(r, x, y),
        rect.x >= margin && rect.y >= margin ==> (has_pixel(r, x, y) <==> rect.x - margin <= x
            < rect.x + rect.w + margin && rect.y - margin <= y < rect.y + rect.h + margin && x
            < width && y < height),
{
}

/// A region begins at the pixel of its near shares and is as large as the gap between the
/// shares, cut to whole pixels and at least one, but for what rounding adds or takes, less
/// than one millionth of a pixel.
pub proof fn law_regions_reach_from_share_to_share(
    r: Rect,
    frame_w: int,
    frame_h: int,
    left: nat,
    top: nat,
    right: nat,
    bottom: nat,
)
    requires
        is_region(r, frame_w, frame_h, left, top, right, bottom),
        0 <= frame_w <= i32::MAX,
        0 <= frame_h <= i32::MAX,
        left <= right <= double::UNITS_PER_ONE,
        top <= bottom <= double::UNITS_PER_ONE,
    ensures
        double::is_cut(r.x as int, frame_w * left),
        double::is_cut(r.y as int, frame_h * top),
        r.w >= 1 && r.h >= 1,
        r.w == 1 && frame_w * (right - left) < 2 * double::UNITS_PER_ONE || double::is_cut(
            r.w as int,
            frame_w * (right - left),
        ),
        r.h == 1 && frame_h * (bottom - top) < 2 * double::UNITS_PER_ONE || double::is_cut(
            r.h as int,
            frame_h * (bottom - top),
        ),
{
    double::law_spans_are_cut_to_whole_pixels(frame_w, left, right);
    double::law_spans_are_cut_to_whole_pixels(frame_h, top, bottom);
}

/// The pixels of a region between thousandths of a frame are what whole numbers say: it
/// begins not beyond its near shares and not a pixel before them, and it is as large as the
/// gaps between the shares, cut to whole pixels and at least one.
pub open spec fn is_between_thousandths(
    r: Rect,
    frame_w: int,
    frame_h: int,
    left: int,
    top: int,
    right: int,
    bottom: int,
) -> bool {
    &&& 1000 * r.x <= left * frame_w <= 1000 * (r.x + 1)
    &&& 1000 * r.y <= top * frame_h <= 1000 * (r.y + 1)
    &&& r.w >= 1 && (r.w > 1 ==> 1000 * r.w <= (right - left) * frame_w) && (right - left)
        * frame_w <= 1000 * (r.w + 1)
    &&& r.h >= 1 && (r.h > 1 ==> 1000 * r.h <= (bottom - top) * frame_h) && (bottom - top)
        * frame_h <= 1000 * (r.h + 1)
}

/// A region between shares of thousandths lies between those thousandths of the frame.
pub proof fn law_regions_lie_between_thousandths(
    r: Rect,
    frame_w: int,
    frame_h: int,
    left: nat,
    top: nat,
    right: nat,
    bottom: nat,
)
    requires
        is_region(
            r,
            frame_w,
            frame_h,
            double::thousandths_units(left),
            double::thousandths_units(top),
            double::thousandths_units(right),
            double::thousandths_units(bottom),
        ),
        0 <= frame_w <= i32::MAX,
        0 <= frame_h <= i32::MAX,
        left <= right < 1000,
        top <= bottom < 1000,
    ensures
        is_between_thousandths(
            r,
            frame_w,
            frame_h,
            left as int,
            top as int,
            right as int,
            bottom as int,
        ),
{
    double::law_thousandths_of_an_extent(frame_w, left, right);
    double::law_thousandths_of_an_extent(frame_h, top, bottom);
}

} // verus!
