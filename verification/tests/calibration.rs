use game_bot::double::{Double, UNITS_PER_ONE};
use game_bot::geometry::{padded, rects_overlap_significantly, region, Rect};
use game_bot::match_icon::{
    find_icon_opencv, get_screen_scale_factor, template_scaling, TEMPLATE_REFERENCE_PHYSICAL_WIDTH,
};
use game_bot::rounding::{round_quotient, DOUBLE_BITS, SINGLE_BITS};
use game_bot::score::Score;
use game_bot::screen::{compute_scale_factor, screen_point, window_center, WindowFrame};

fn next(seed: &mut u64) -> u64 {
    *seed = seed.wrapping_mul(6364136223846793005).wrapping_add(1442695040888963407);
    *seed >> 11
}

fn fraction(thousandths: u32) -> f64 {
    format!("{}e-3", thousandths).parse().unwrap()
}

fn score(value: f32) -> Score {
    Score { bits: value.to_bits() }
}

#[test]
fn quotients_round_to_nearest_even() {
    // 2^53 + 1 lies half way between two doubles; the even one is below.
    assert_eq!(round_quotient(9007199254740993, 1, DOUBLE_BITS), 9007199254740992);
    assert_eq!(round_quotient(9007199254740995, 1, DOUBLE_BITS), 9007199254740996);
    assert_eq!(round_quotient(16777217, 1, SINGLE_BITS), 16777216);
    assert_eq!(round_quotient(16777219, 1, SINGLE_BITS), 16777220);
    assert_eq!(round_quotient(7, 2, DOUBLE_BITS), 4);
    assert_eq!(round_quotient(5, 2, DOUBLE_BITS), 2);
    assert_eq!(round_quotient(0, 3, DOUBLE_BITS), 0);
}

#[test]
fn whole_numbers_round_as_floats_do() {
    let mut seed: u64 = 7;
    for _ in 0..20000 {
        let n: u64 = next(&mut seed);
        assert_eq!(round_quotient(n as u128, 1, DOUBLE_BITS), n as f64 as u128);
        assert_eq!(round_quotient(n as u128, 1, SINGLE_BITS), n as f32 as u128);
    }
}

#[test]
fn thousandths_are_the_nearest_doubles() {
    for p in [1u32, 20, 80, 85, 145, 346, 655, 696, 819, 870, 989, 1000, 1300, 1600, 50000, 140000] {
        let exact: Double = Double::thousandths(p);
        assert_eq!(exact.units() as f64 / UNITS_PER_ONE as f64, fraction(p));
        let read: Double = Double::from_bits(fraction(p).to_bits()).unwrap();
        assert_eq!(read.units(), exact.units());
    }
}

#[test]
fn only_doubles_in_range_are_taken() {
    assert_eq!(Double::from_bits(0f64.to_bits()).unwrap().units(), 0);
    assert_eq!(Double::from_bits(512f64.to_bits()).unwrap().units(), 512 * UNITS_PER_ONE);
    assert!(Double::from_bits(513f64.to_bits()).is_none());
    assert!(Double::from_bits((-1f64).to_bits()).is_none());
    assert!(Double::from_bits(f64::NAN.to_bits()).is_none());
    assert!(Double::from_bits(f64::INFINITY.to_bits()).is_none());
    assert!(Double::from_bits(1e-300f64.to_bits()).is_none());
    assert_eq!(Double::from_bits(93.7f64.to_bits()).unwrap().units() as f64, 93.7 * 2f64.powi(84));
}

#[test]
fn shares_are_cut_as_floats_are() {
    for p in [20u32, 80, 85, 145, 160, 200, 335, 346, 620, 655, 680, 696, 760, 819, 870, 989, 990] {
        let share: Double = Double::thousandths(p);
        for extent in 0..4000i64 {
            assert_eq!(share.of(extent), (extent as f64 * fraction(p)) as i32);
        }
        for extent in [-3000i64, -1, 65535, 1 << 20, i32::MAX as i64, u32::MAX as i64] {
            assert_eq!(share.of(extent), (extent as f64 * fraction(p)) as i32);
        }
    }
    assert_eq!(Double::thousandths(1600).of(i32::MAX as i64), i32::MAX);
}

#[test]
fn spans_are_differences_of_doubles() {
    for (from, to) in [(145u32, 696u32), (335, 819), (346, 655), (870, 989), (760, 990), (696, 145)] {
        let start: Double = Double::thousandths(from);
        let end: Double = Double::thousandths(to);
        for extent in 0..4000i64 {
            let expected: i32 = (extent as f64 * (fraction(to) - fraction(from))) as i32;
            assert_eq!(start.span_of(&end, extent), expected);
        }
    }
}

#[test]
fn ratios_are_compared_as_doubles() {
    let least: Double = Double::thousandths(1300);
    for w in -20..400 {
        for h in -3..60 {
            assert_eq!(least.reached_by(w, h), w as f64 / h as f64 >= fraction(1300));
        }
    }
}

#[test]
fn brightness_jumps_are_strict() {
    let a: Double = Double::from_bits(100.0f64.to_bits()).unwrap();
    let b: Double = Double::from_bits(160.0f64.to_bits()).unwrap();
    let c: Double = Double::from_bits(160.5f64.to_bits()).unwrap();
    assert!(!a.differs_by_more_than(&b, 60));
    assert!(a.differs_by_more_than(&c, 60));
    assert!(c.differs_by_more_than(&a, 60));
}

#[test]
fn regions_have_at_least_one_pixel() {
    let canvas: Rect = region(
        3000,
        1716,
        &Double::thousandths(145),
        &Double::thousandths(335),
        &Double::thousandths(696),
        &Double::thousandths(819),
    );
    assert_eq!(canvas, Rect { x: 434, y: 574, w: 1652, h: 830 });
    assert_eq!(canvas.x, (3000f64 * 0.145) as i32);
    assert_eq!(canvas.h, (1716f64 * (0.819 - 0.335)) as i32);
    let tiny: Rect = region(
        1,
        1,
        &Double::thousandths(145),
        &Double::thousandths(335),
        &Double::thousandths(696),
        &Double::thousandths(819),
    );
    assert_eq!(tiny, Rect { x: 0, y: 0, w: 1, h: 1 });
}

#[test]
fn regions_lie_in_their_frames() {
    for w in 1..1500 {
        let r: Rect = region(
            w,
            w,
            &Double::thousandths(346),
            &Double::thousandths(870),
            &Double::thousandths(655),
            &Double::thousandths(989),
        );
        assert!(0 <= r.x && r.x + r.w <= w && 0 <= r.y && r.y + r.h <= w);
    }
}

#[test]
fn padding_is_cut_at_the_border() {
    let inner: Rect = Rect { x: 10, y: 20, w: 30, h: 40 };
    assert_eq!(padded(&inner, 4, 100, 100), Some(Rect { x: 6, y: 16, w: 38, h: 48 }));
    assert_eq!(padded(&inner, 4, 42, 60), Some(Rect { x: 6, y: 16, w: 36, h: 44 }));
    let corner: Rect = Rect { x: 1, y: 2, w: 30, h: 40 };
    assert_eq!(padded(&corner, 4, 100, 100), Some(Rect { x: 0, y: 0, w: 38, h: 48 }));
    assert_eq!(padded(&Rect { x: 200, y: 0, w: 5, h: 5 }, 4, 100, 100), None);
}

fn overlaps(a: &Rect, b: &Rect) -> bool {
    let iw: i64 = ((a.x + a.w).min(b.x + b.w) - a.x.max(b.x)).max(0) as i64;
    let ih: i64 = ((a.y + a.h).min(b.y + b.h) - a.y.max(b.y)).max(0) as i64;
    let least: i64 = (a.w as i64 * a.h as i64).min(b.w as i64 * b.h as i64).max(1);
    iw * ih > 0 && (iw * ih) as f64 / least as f64 > 0.3
}

#[test]
fn overlaps_are_judged_as_doubles() {
    let mut seed: u64 = 99;
    for _ in 0..20000 {
        let mut side = || (next(&mut seed) % 40) as i32;
        let a: Rect = Rect { x: side(), y: side(), w: side(), h: side() };
        let b: Rect = Rect { x: side(), y: side(), w: side(), h: side() };
        assert_eq!(rects_overlap_significantly(&a, &b), overlaps(&a, &b));
        assert_eq!(rects_overlap_significantly(&b, &a), overlaps(&a, &b));
    }
    // Exactly three tenths are shared, which is not more than three tenths.
    let ten: Rect = Rect { x: 0, y: 0, w: 10, h: 10 };
    assert!(!rects_overlap_significantly(&ten, &Rect { x: 7, y: 0, w: 10, h: 10 }));
    assert!(rects_overlap_significantly(&ten, &Rect { x: 6, y: 0, w: 10, h: 10 }));
}

#[test]
fn templates_scale_with_the_frame() {
    assert_eq!(TEMPLATE_REFERENCE_PHYSICAL_WIDTH, 3000);
    assert!(template_scaling(48, 36, 3000).is_none());
    let half = template_scaling(48, 35, 1500).unwrap();
    assert_eq!((half.w, half.h, half.shrinks), (24, 18, true));
    let double = template_scaling(48, 35, 6000).unwrap();
    assert_eq!((double.w, double.h, double.shrinks), (96, 70, false));
    let gone = template_scaling(1, 1, 1).unwrap();
    assert_eq!((gone.w, gone.h), (1, 1));
    for width in 1..7000u32 {
        let factor: f64 = width as f64 / 3000.0;
        match template_scaling(47, 131, width) {
            Some(size) => {
                assert!((factor - 1.0).abs() > 0.01);
                assert_eq!(size.w, (47f64 * factor).round().max(1.0) as i32);
                assert_eq!(size.h, (131f64 * factor).round().max(1.0) as i32);
                assert_eq!(size.shrinks, factor < 1.0);
            }
            None => assert!((factor - 1.0).abs() <= 0.01),
        }
    }
}

#[test]
fn icons_are_found_in_their_middle() {
    let hit = find_icon_opencv(100, 200, 31, 40, score(0.9), score(0.55));
    assert_eq!(hit, Some(((115, 220), score(0.9))));
    assert_eq!(find_icon_opencv(100, 200, 31, 40, score(0.55), score(0.55)).is_some(), true);
    assert_eq!(find_icon_opencv(100, 200, 31, 40, score(0.5499), score(0.55)), None);
    assert_eq!(find_icon_opencv(100, 200, 31, 40, score(f32::NAN), score(0.55)), None);
    assert_eq!(get_screen_scale_factor(true), 2);
    assert_eq!(get_screen_scale_factor(false), 1);
}

fn expected_point(w: &WindowFrame, pw: u32, ph: u32, px: u32, py: u32, fallback: f32) -> (i32, i32) {
    let sx: f32 = pw as f32 / w.width.max(1) as f32;
    let sy: f32 = ph as f32 / w.height.max(1) as f32;
    let (sx, sy) = if sx > 0.1 && sy > 0.1 { (sx, sy) } else { (fallback, fallback) };
    (w.x + (px as f32 / sx) as i32, w.y + (py as f32 / sy) as i32)
}

#[test]
fn pixels_are_shown_where_single_precision_says() {
    let mut seed: u64 = 4242;
    for _ in 0..20000 {
        let w = WindowFrame {
            x: (next(&mut seed) % 4000) as i32 - 2000,
            y: (next(&mut seed) % 4000) as i32 - 2000,
            width: (next(&mut seed) % 4000) as u32,
            height: (next(&mut seed) % 3000) as u32,
        };
        let pw: u32 = (next(&mut seed) % 8000) as u32;
        let ph: u32 = (next(&mut seed) % 6000) as u32;
        let px: u32 = (next(&mut seed) % 8000) as u32;
        let py: u32 = (next(&mut seed) % 6000) as u32;
        let scale = compute_scale_factor(&w, pw, ph, 2);
        assert_eq!(
            screen_point(&w, &scale, px, py),
            Some(expected_point(&w, pw, ph, px, py, 2.0))
        );
    }
}

#[test]
fn implausible_scales_fall_back() {
    let w = WindowFrame { x: 0, y: 0, width: 1000, height: 1000 };
    let scale = compute_scale_factor(&w, 0, 2000, 2);
    assert_eq!(screen_point(&w, &scale, 300, 500), Some((150, 250)));
    let retina = compute_scale_factor(&w, 2000, 2000, 1);
    assert_eq!(screen_point(&w, &retina, 300, 501), Some((150, 250)));
}

#[test]
fn points_beyond_the_range_are_refused() {
    let w = WindowFrame { x: i32::MAX, y: 0, width: 100, height: 100 };
    let scale = compute_scale_factor(&w, 100, 100, 1);
    assert_eq!(screen_point(&w, &scale, 1, 1), None);
    assert_eq!(screen_point(&w, &scale, 0, 1), Some((i32::MAX, 1)));
    assert_eq!(window_center(&w), None);
    let shown = WindowFrame { x: -5, y: 7, width: 101, height: 50 };
    assert_eq!(window_center(&shown), Some((45, 32)));
    let huge = WindowFrame { x: 0, y: 0, width: u32::MAX, height: 2147483648 };
    assert_eq!(window_center(&huge), Some((u32::MAX as i32 / 2, 2147483648u32 as i32 / 2)));
}

#[test]
fn scores_are_ordered_as_numbers() {
    let values: [f32; 9] =
        [f32::NEG_INFINITY, -1.0, -0.0, 0.0, f32::MIN_POSITIVE, 0.5, 0.75, f32::INFINITY, f32::NAN];
    for a in values {
        for b in values {
            assert_eq!(score(a).is_below(&score(b)), a < b);
            assert_eq!(score(a).is_at_least(&score(b)), a >= b);
        }
    }
    assert_eq!(Score::zero(), score(0.0));
}

#[test]
fn unscaled_windows_keep_their_pixels() {
    let w = WindowFrame { x: 0, y: 0, width: 1366, height: 768 };
    let scale = compute_scale_factor(&w, 1366, 768, 1);
    for p in [0u32, 1, 7, 767, 1365, 100000, 16777215] {
        assert_eq!(screen_point(&w, &scale, p, p), Some((p as i32, p as i32)));
    }
}
