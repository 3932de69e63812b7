//! Walking by way of the large map: the game walks to a point that is clicked on it.
//!
//! The image work (threshold, opening, connected components, erosion) is done by the
//! caller. This module says where to click, which component is the network of
//! corridors, which of its pixels can be chosen, and in which order the steps come.
use crate::double;
use crate::double::Double;
use crate::geometry;
use crate::geometry::Rect;
use crate::score::Score;
use crate::screen;
use crate::screen::{ScreenScale, WindowFrame};
use crate::util;
use crate::util::ProjectDir;
use rand::Rng;
use vstd::prelude::*;

verus! {

/// Encoding of one half, the confidence that the close button has to reach.
pub const CLOSE_CONFIDENCE_BITS: u32 = 1056964608;

/// Milliseconds that the map takes to open or to close.
pub const PANEL_WAIT_MS: u64 = 200;

/// Milliseconds that the game takes to find a way.
pub const ROUTE_WAIT_MS: u64 = 100;

/// Calibration of the navigation. Borders are shares of the window.
#[derive(Debug, Clone)]
pub struct NavConfig {
    /// Where a click opens the map.
    pub open_click_x_frac: Double,
    pub open_click_y_frac: Double,
    /// Borders of the map itself.
    pub canvas_left_frac: Double,
    pub canvas_top_frac: Double,
    pub canvas_right_frac: Double,
    pub canvas_bottom_frac: Double,
    /// Brightness from which on a pixel can be walked on.
    pub walkable_brightness_min: Double,
    /// Size of the opening that removes specks.
    pub denoise_kernel_size: i32,
    /// Size of the erosion that keeps clicks away from walls.
    pub erode_margin_kernel_size: i32,
    /// Icon of the close button, and the confidence that it has to reach.
    pub close_button_template: String,
    pub close_button_min_confidence: Score,
}

impl NavConfig {
    /// The calibration of the project in `dir`.
    pub open spec fn is_default_in(self, dir: ProjectDir) -> bool {
        &&& self.open_click_x_frac@ == double::thousandths_units(900)
        &&& self.open_click_y_frac@ == double::thousandths_units(160)
        &&& self.canvas_left_frac@ == double::thousandths_units(145)
        &&& self.canvas_top_frac@ == double::thousandths_units(335)
        &&& self.canvas_right_frac@ == double::thousandths_units(696)
        &&& self.canvas_bottom_frac@ == double::thousandths_units(819)
        &&& self.walkable_brightness_min@ == double::thousandths_units(10000)
        &&& self.denoise_kernel_size == 7
        &&& self.erode_margin_kernel_size == 15
        &&& self.close_button_template@ == util::joined(
            util::joined(
                util::joined(dir.root@, dir.separator, "templates"@),
                dir.separator,
                "icons"@,
            ),
            dir.separator,
            "close_map.png"@,
        )
        &&& self.close_button_min_confidence.bits == CLOSE_CONFIDENCE_BITS
    }

    /// The calibration of the project in `dir`.
    pub fn default_in(dir: &ProjectDir) -> (r: NavConfig)
        requires
            dir.is_usable(),
        ensures
            r.is_default_in(*dir),
    {
        proof {
            reveal_strlit("close_map.png");
        }
        NavConfig {
            open_click_x_frac: Double::thousandths(900),
            open_click_y_frac: Double::thousandths(160),
            canvas_left_frac: Double::thousandths(145),
            canvas_top_frac: Double::thousandths(335),
            canvas_right_frac: Double::thousandths(696),
            canvas_bottom_frac: Double::thousandths(819),
            walkable_brightness_min: Double::thousandths(10000),
            denoise_kernel_size: 7,
            erode_margin_kernel_size: 15,
            close_button_template: util::get_secure_template_path(dir, "close_map.png"),
            close_button_min_confidence: Score { bits: CLOSE_CONFIDENCE_BITS },
        }
    }
}

/// The map itself in a frame that shows it.
pub fn compute_canvas_rect(frame_w: i32, frame_h: i32, cfg: &NavConfig) -> (r: Rect)
    ensures
        geometry::is_region(
            r,
            frame_w as int,
            frame_h as int,
            cfg.canvas_left_frac@,
            cfg.canvas_top_frac@,
            cfg.canvas_right_frac@,
            cfg.canvas_bottom_frac@,
        ),
{
    geometry::region(
        frame_w,
        frame_h,
        &cfg.canvas_left_frac,
        &cfg.canvas_top_frac,
        &cfg.canvas_right_frac,
        &cfg.canvas_bottom_frac,
    )
}

/// Where a click opens the map; `None` when that is beyond the range of screen
/// coordinates.
pub fn open_big_map(window: &WindowFrame, cfg: &NavConfig) -> (p: Option<(i32, i32)>)
    ensures
        ({
            let x = window.x + double::scaled(window.width as int, cfg.open_click_x_frac@ as int);
            let y = window.y + double::scaled(window.height as int, cfg.open_click_y_frac@ as int);
            match p {
                Some(at) => at.0 == x && at.1 == y,
                None => !geometry::fits_i32(x) || !geometry::fits_i32(y),
            }
        }),
{
    let dx: i32 = cfg.open_click_x_frac.of(window.width as i64);
    let dy: i32 = cfg.open_click_y_frac.of(window.height as i64);
    match (window.x.checked_add(dx), window.y.checked_add(dy)) {
        (Some(x), Some(y)) => Some((x, y)),
        _ => None,
    }
}

/// Label of the first of the largest components, the background left out; one where
/// none has an area.
pub open spec fn largest_label(areas: Seq<i32>) -> int
    decreases areas.len(),
{
    if areas.len() <= 1 {
        1
    } else {
        let best = largest_label(areas.drop_last());
        let known = if best < areas.len() - 1 && areas[best] > 0 {
            areas[best] as int
        } else {
            0
        };
        if areas.last() > known {
            areas.len() - 1
        } else {
            best
        }
    }
}

/// The component that the character can walk in, by the areas of all components; the
/// first of them is the background. `None` where there is nothing but background.
pub fn largest_component(areas: &[i32]) -> (label: Option<usize>)
    ensures
        match label {
            Some(i) => areas@.len() > 1 && i == largest_label(areas@) && 1 <= i < areas@.len(),
            None => areas@.len() <= 1,
        },
{
    if areas.len() <= 1 {
        return None;
    }
    let mut best: usize = 1;
    let mut best_area: i32 = 0;
    let mut i: usize = 1;
    while i < areas.len()
        invariant
            1 <= i <= areas@.len(),
            1 <= best < areas@.len(),
            i > 1 ==> best < i,
            i == 1 ==> best == 1,
            best == largest_label(areas@.take(i as int)),
            best_area >= 0,
            best_area == (if best < i && areas@[best as int] > 0 {
                areas@[best as int] as int
            } else {
                0
            }),
        decreases areas.len() - i,
    {
        assert(areas@.take(i + 1).drop_last() =~= areas@.take(i as int));
        assert(areas@.take(i + 1).last() == areas@[i as int]);
        if areas[i] > best_area {
            best_area = areas[i];
            best = i;
        }
        i = i + 1;
    }
    assert(areas@.take(areas@.len() as int) =~= areas@);
    Some(best)
}

/// No component is larger than the one that is chosen, and none before it is as large,
/// where any component has an area.
pub proof fn law_largest_component_is_the_largest(areas: Seq<i32>)
    requires
        areas.len() > 1,
    ensures
        1 <= largest_label(areas) < areas.len(),
        forall|i: int|
            1 <= i < areas.len() && #[trigger] areas[i] > 0 ==> areas[i] <= areas[largest_label(
                areas,
            )],
        forall|i: int|
            1 <= i < largest_label(areas) ==> #[trigger] areas[i] < areas[largest_label(areas)],
    decreases areas.len(),
{
    reveal_with_fuel(largest_label, 2);
    if areas.len() > 2 {
        law_largest_component_is_the_largest(areas.drop_last());
        let fewer = areas.drop_last();
        assert forall|i: int| 0 <= i < fewer.len() implies fewer[i] == #[trigger] areas[i] by {}
    }
}

/// The pixels of a mask that are set, as columns and rows, row by row.
pub open spec fn set_pixels(mask: Seq<u8>, cols: int) -> Seq<(i32, i32)>
    decreases mask.len(),
{
    if mask.len() == 0 {
        Seq::empty()
    } else {
        let last = mask.len() - 1;
        let before = set_pixels(mask.drop_last(), cols);
        if mask.last() > 0 {
            before.push(((last % cols) as i32, (last / cols) as i32))
        } else {
            before
        }
    }
}

/// The pixels of a mask that are set.
pub fn collect_pixels(mask: &[u8], cols: i32, rows: i32) -> (pixels: Vec<(i32, i32)>)
    requires
        cols >= 0,
        rows >= 0,
        mask@.len() == cols * rows,
    ensures
        pixels@ == set_pixels(mask@, cols as int),
{
    let mut pixels: Vec<(i32, i32)> = Vec::new();
    let mut k: usize = 0;
    let mut x: i32 = 0;
    let mut y: i32 = 0;
    assert(mask@.take(0) =~= Seq::<u8>::empty());
    while k < mask.len()
        invariant
            cols >= 0,
            rows >= 0,
            mask@.len() == cols * rows,
            k <= mask@.len(),
            cols > 0 ==> 0 <= x < cols,
            0 <= y <= rows,
            k == y * cols + x,
            pixels@ == set_pixels(mask@.take(k as int), cols as int),
        decreases mask.len() - k,
    {
        proof {
            assert(cols > 0 && y < rows) by (nonlinear_arith)
                requires
                    k < cols * rows,
                    k == y * cols + x,
                    cols >= 0,
                    rows >= 0,
                    cols > 0 ==> 0 <= x < cols,
                    k >= 0,
            ;
            vstd::arithmetic::div_mod::lemma_fundamental_div_mod_converse(
                k as int,
                cols as int,
                y as int,
                x as int,
            );
            assert(mask@.take(k + 1).drop_last() =~= mask@.take(k as int));
            assert((y + 1) * cols == y * cols + cols) by (nonlinear_arith);
        }
        if mask[k] > 0 {
            pixels.push((x, y));
        }
        k = k + 1;
        x = x + 1;
        if x == cols {
            x = 0;
            y = y + 1;
        }
    }
    assert(mask@.take(mask@.len() as int) =~= mask@);
    pixels
}

/// The pixels that can be chosen: those of the eroded component, and those of the whole
/// component where the erosion left none.
pub open spec fn candidates(safe: Seq<u8>, main: Seq<u8>, cols: int) -> Seq<(i32, i32)> {
    if set_pixels(safe, cols).len() > 0 {
        set_pixels(safe, cols)
    } else {
        set_pixels(main, cols)
    }
}

/// The pixels that can be chosen.
pub fn walkable_points(safe: &[u8], main: &[u8], cols: i32, rows: i32) -> (points: Vec<(i32, i32)>)
    requires
        cols >= 0,
        rows >= 0,
        safe@.len() == cols * rows,
        main@.len() == cols * rows,
    ensures
        points@ == candidates(safe@, main@, cols as int),
{
    let inner: Vec<(i32, i32)> = collect_pixels(safe, cols, rows);
    if inner.len() > 0 {
        inner
    } else {
        collect_pixels(main, cols, rows)
    }
}

/// `rand::Rng::gen_range` of `rand::thread_rng` draws a number below `n`. How likely each
/// of them is, the contract leaves open.
#[verifier::external_body]
fn random_below(n: usize) -> (r: usize)
    requires
        n > 0,
    ensures
        r < n,
{
    rand::thread_rng().gen_range(0..n)
}

/// The pixel that a number draws; `None` where there is none with that number.
pub fn drawn_point(points: &[(i32, i32)], draw: usize) -> (point: Option<(i32, i32)>)
    ensures
        point == (if draw < points@.len() {
            Some(points@[draw as int])
        } else {
            None
        }),
{
    if draw < points.len() {
        Some(points[draw])
    } else {
        None
    }
}

/// A random pixel of the map that can be walked to; `None` where there is none. `main`
/// marks the component that the character can walk in, `safe` what the erosion left of it.
pub fn pick_random_walkable_point(safe: &[u8], main: &[u8], cols: i32, rows: i32) -> (point: Option<
    (i32, i32),
>)
    requires
        cols >= 0,
        rows >= 0,
        safe@.len() == cols * rows,
        main@.len() == cols * rows,
    ensures
        match point {
            Some(p) => candidates(safe@, main@, cols as int).contains(p),
            None => candidates(safe@, main@, cols as int).len() == 0,
        },
{
    let points: Vec<(i32, i32)> = walkable_points(safe, main, cols, rows);
    if points.len() == 0 {
        return None;
    }
    let draw: usize = random_below(points.len());
    drawn_point(points.as_slice(), draw)
}

/// Every pixel that can be chosen is a pixel of the map that is set in the eroded
/// component, or in the whole one where the erosion left nothing, and there is one
/// wherever a pixel of the component is set.
pub proof fn law_chosen_points_can_be_walked_to(safe: Seq<u8>, main: Seq<u8>, cols: int, rows: int)
    requires
        0 <= cols <= i32::MAX,
        0 <= rows <= i32::MAX,
        safe.len() == cols * rows,
        main.len() == cols * rows,
    ensures
        forall|p: (i32, i32)| #[trigger]
            candidates(safe, main, cols).contains(p) ==> {
                &&& 0 <= p.0 < cols
                &&& 0 <= p.1 < rows
                &&& if set_pixels(safe, cols).len() > 0 {
                    safe[p.1 * cols + p.0] > 0
                } else {
                    main[p.1 * cols + p.0] > 0
                }
            },
        forall|i: int|
            0 <= i < main.len() && #[trigger] main[i] > 0 ==> candidates(safe, main, cols).len() > 0,
{
    lemma_set_pixels(safe, cols, rows);
    lemma_set_pixels(main, cols, rows);
}

proof fn lemma_set_pixels(mask: Seq<u8>, cols: int, rows: int)
    requires
        0 <= cols <= i32::MAX,
        0 <= rows <= i32::MAX,
        mask.len() <= cols * rows,
    ensures
        forall|p: (i32, i32)| #[trigger]
            set_pixels(mask, cols).contains(p) ==> {
                &&& 0 <= p.0 < cols
                &&& 0 <= p.1 < rows
                &&& p.1 * cols + p.0 < mask.len()
                &&& mask[p.1 * cols + p.0] > 0
            },
        forall|i: int|
            0 <= i < mask.len() && #[trigger] mask[i] > 0 ==> set_pixels(mask, cols).len() > 0,
    decreases mask.len(),
{
    if mask.len() > 0 {
        let last = mask.len() - 1;
        let fewer = mask.drop_last();
        lemma_set_pixels(fewer, cols, rows);
        assert(cols > 0) by (nonlinear_arith)
            requires
                0 < cols * rows,
                cols >= 0,
        ;
        let x = last % cols;
        let y = last / cols;
        vstd::arithmetic::div_mod::lemma_fundamental_div_mod(last, cols);
        assert(0 <= y < rows && last == y * cols + x && 0 <= x < cols) by (nonlinear_arith)
            requires
                0 <= last < cols * rows,
                last == cols * y + x,
                0 <= x < cols,
                cols > 0,
        ;
        let before = set_pixels(fewer, cols);
        let whole = set_pixels(mask, cols);
        assert forall|p: (i32, i32)| #[trigger] whole.contains(p) implies {
            &&& 0 <= p.0 < cols
            &&& 0 <= p.1 < rows
            &&& p.1 * cols + p.0 < mask.len()
            &&& mask[p.1 * cols + p.0] > 0
        } by {
            let k = choose|k: int| 0 <= k < whole.len() && whole[k] == p;
            if k < before.len() {
                assert(before[k] == p);
                assert(before.contains(p));
            }
        }
        assert forall|i: int| 0 <= i < mask.len() && #[trigger] mask[i] > 0 implies whole.len()
            > 0 by {
            if i < last {
                assert(fewer[i] == mask[i]);
            }
        }
    }
}

/// The point on the screen that shows a pixel of the map; `None` when it is beyond the
/// range of screen coordinates. `canvas` is where the map lies in the screenshot.
pub fn target_point(
    window: &WindowFrame,
    scale: &ScreenScale,
    canvas: &Rect,
    local: (i32, i32),
) -> (p: Option<(i32, i32)>)
    requires
        0 <= canvas.x + local.0 <= i32::MAX,
        0 <= canvas.y + local.1 <= i32::MAX,
    ensures
        ({
            let x = window.x + screen::logical_offset(
                (canvas.x + local.0) as nat,
                scale.horizontal(),
            );
            let y = window.y + screen::logical_offset((canvas.y + local.1) as nat, scale.vertical());
            match p {
                Some(at) => at.0 == x && at.1 == y,
                None => !geometry::fits_i32(x) || !geometry::fits_i32(y),
            }
        }),
{
    let x: u32 = (canvas.x + local.0) as u32;
    let y: u32 = (canvas.y + local.1) as u32;
    screen::screen_point(window, scale, x, y)
}

/// Where the close button is: where it was just found, and otherwise where it was found
/// before.
pub open spec fn known_button(found: Option<(i32, i32)>, remembered: Option<(i32, i32)>) -> Option<
    (i32, i32),
> {
    if found is Some {
        found
    } else {
        remembered
    }
}

/// Where a click closes the map. The button does not move, so what is known of it is
/// also what is remembered.
pub fn close_big_map(found: Option<(i32, i32)>, remembered: Option<(i32, i32)>) -> (p: Option<
    (i32, i32),
>)
    ensures
        p == known_button(found, remembered),
{
    match found {
        Some(p) => Some(p),
        None => remembered,
    }
}

/// How far a walk by way of the map has come.
#[derive(Clone, Copy, Debug, PartialEq, Eq)]
pub enum NavStage {
    /// Nothing was done.
    Idle,
    /// The map was asked to open.
    Opening,
    /// The map is open, and a click at the point closes it.
    Choosing { close_at: (i32, i32) },
    /// A target was clicked, or not, and the map is about to be closed. Before that a
    /// click at the point closed it.
    Closing { clicked: bool, close_at: (i32, i32) },
    /// The walk is over.
    Finished { outcome: NavOutcome },
}

/// How a walk by way of the map ended.
#[derive(Clone, Copy, Debug, PartialEq, Eq, Structural)]
pub enum NavOutcome {
    /// The map was opened, a target was clicked, and the map was closed; the game walks.
    Walking,
    /// The map did not open or could not be closed, or shows nothing that can be walked
    /// to.
    Unsupported,
    /// The image work failed.
    Failed,
}

/// What was observed.
#[derive(Clone, Copy, Debug, PartialEq, Eq)]
pub enum NavEvent {
    /// A walk is wanted; a click at the point opens the map.
    Start { open_at: (i32, i32) },
    /// No screenshot could be taken.
    CaptureFailed,
    /// A screenshot was taken; where the close button is, as far as that is known.
    Captured { close_at: Option<(i32, i32)> },
    /// A target was looked for on the map; where it is shown, if there is one.
    Chosen { target: Option<(i32, i32)> },
    /// The image work failed.
    Error,
}

/// What is to be done.
#[derive(Clone, Copy, Debug, PartialEq, Eq)]
pub enum NavAction {
    /// Click at the point, wait, then take a screenshot and look for the close button.
    ClickAndCapture { at: (i32, i32), wait_ms: u64 },
    /// Look for a target on the map.
    ChooseTarget,
    /// Take a screenshot and look for the close button.
    Capture,
    /// Click at the point and wait.
    Click { at: (i32, i32), wait_ms: u64 },
    /// Nothing.
    Nothing,
}

/// How a walk ends: it went well where a target was clicked and the map is closed.
pub open spec fn outcome_of(clicked: bool, closed: bool) -> NavOutcome {
    if clicked && closed {
        NavOutcome::Walking
    } else {
        NavOutcome::Unsupported
    }
}

/// How a walk goes on. Where no screenshot can be taken of a map that is about to be
/// closed, the close button is taken to be where it was seen when the map opened. An
/// event that a stage does not wait for changes nothing.
pub open spec fn nav_step(stage: NavStage, event: NavEvent) -> (NavStage, NavAction) {
    match (stage, event) {
        (NavStage::Idle, NavEvent::Start { open_at }) => (
            NavStage::Opening,
            NavAction::ClickAndCapture { at: open_at, wait_ms: PANEL_WAIT_MS },
        ),
        (NavStage::Opening, NavEvent::CaptureFailed) => (
            NavStage::Finished { outcome: NavOutcome::Unsupported },
            NavAction::Nothing,
        ),
        (NavStage::Opening, NavEvent::Captured { close_at }) => match close_at {
            Some(at) => (NavStage::Choosing { close_at: at }, NavAction::ChooseTarget),
            None => (
                NavStage::Finished { outcome: NavOutcome::Unsupported },
                NavAction::Nothing,
            ),
        },
        (NavStage::Choosing { close_at }, NavEvent::Chosen { target }) => match target {
            Some(at) => (
                NavStage::Closing { clicked: true, close_at },
                NavAction::ClickAndCapture { at, wait_ms: ROUTE_WAIT_MS },
            ),
            None => (NavStage::Closing { clicked: false, close_at }, NavAction::Capture),
        },
        (NavStage::Choosing { .. }, NavEvent::Error) => (
            NavStage::Finished { outcome: NavOutcome::Failed },
            NavAction::Nothing,
        ),
        (NavStage::Closing { clicked, .. }, NavEvent::Captured { close_at }) => (
            NavStage::Finished { outcome: outcome_of(clicked, close_at is Some) },
            match close_at {
                Some(at) => NavAction::Click { at, wait_ms: PANEL_WAIT_MS },
                None => NavAction::Nothing,
            },
        ),
        (NavStage::Closing { clicked, close_at }, NavEvent::CaptureFailed) => (
            NavStage::Finished { outcome: outcome_of(clicked, true) },
            NavAction::Click { at: close_at, wait_ms: PANEL_WAIT_MS },
        ),
        _ => (stage, NavAction::Nothing),
    }
}

/// How a walk goes on: the map is opened, a target is clicked on it, the map is closed.
pub fn navigate_to_random_point(stage: NavStage, event: NavEvent) -> (r: (NavStage, NavAction))
    ensures
        r == nav_step(stage, event),
{
    match (stage, event) {
        (NavStage::Idle, NavEvent::Start { open_at }) => (
            NavStage::Opening,
            NavAction::ClickAndCapture { at: open_at, wait_ms: PANEL_WAIT_MS },
        ),
        (NavStage::Opening, NavEvent::CaptureFailed) => (
            NavStage::Finished { outcome: NavOutcome::Unsupported },
            NavAction::Nothing,
        ),
        (NavStage::Opening, NavEvent::Captured { close_at }) => match close_at {
            Some(at) => (NavStage::Choosing { close_at: at }, NavAction::ChooseTarget),
            None => (
                NavStage::Finished { outcome: NavOutcome::Unsupported },
                NavAction::Nothing,
            ),
        },
        (NavStage::Choosing { close_at }, NavEvent::Chosen { target }) => match target {
            Some(at) => (
                NavStage::Closing { clicked: true, close_at },
                NavAction::ClickAndCapture { at, wait_ms: ROUTE_WAIT_MS },
            ),
            None => (NavStage::Closing { clicked: false, close_at }, NavAction::Capture),
        },
        (NavStage::Choosing { close_at: _ }, NavEvent::Error) => (
            NavStage::Finished { outcome: NavOutcome::Failed },
            NavAction::Nothing,
        ),
        (NavStage::Closing { clicked, close_at: _ }, NavEvent::Captured { close_at }) => {
            match close_at {
                Some(at) => finish(clicked, at),
                None => (
                    NavStage::Finished { outcome: NavOutcome::Unsupported },
                    NavAction::Nothing,
                ),
            }
        },
        (NavStage::Closing { clicked, close_at }, NavEvent::CaptureFailed) => finish(
            clicked,
            close_at,
        ),
        _ => (stage, NavAction::Nothing),
    }
}

/// Ends a walk by closing the map.
fn finish(clicked: bool, close_at: (i32, i32)) -> (r: (NavStage, NavAction))
    ensures
        r == (
            NavStage::Finished { outcome: outcome_of(clicked, true) },
            NavAction::Click { at: close_at, wait_ms: PANEL_WAIT_MS },
        ),
{
    let outcome: NavOutcome = if clicked {
        NavOutcome::Walking
    } else {
        NavOutcome::Unsupported
    };
    (
        NavStage::Finished { outcome },
        NavAction::Click { at: close_at, wait_ms: PANEL_WAIT_MS },
    )
}

/// The stage after a number of events, from the start.
pub open spec fn stage_after(events: Seq<NavEvent>) -> NavStage
    decreases events.len(),
{
    if events.len() == 0 {
        NavStage::Idle
    } else {
        nav_step(stage_after(events.drop_last()), events.last()).0
    }
}

/// What event number `i` of a walk leads to.
pub open spec fn action_at(events: Seq<NavEvent>, i: int) -> NavAction {
    nav_step(stage_after(events.take(i)), events[i]).1
}

/// Event number `i` led from an open map to a click on a target.
pub open spec fn clicks_target(events: Seq<NavEvent>, i: int) -> bool {
    &&& 0 <= i < events.len()
    &&& stage_after(events.take(i)) is Choosing
    &&& action_at(events, i) is ClickAndCapture
}

/// Event number `i` led to the click that closes the map.
pub open spec fn closes_map(events: Seq<NavEvent>, i: int) -> bool {
    &&& 0 <= i < events.len()
    &&& stage_after(events.take(i)) is Closing
    &&& action_at(events, i) is Click
}

/// A target was clicked on the open map.
pub open spec fn clicked_a_target(events: Seq<NavEvent>) -> bool {
    exists|i: int| clicks_target(events, i)
}

/// The map was closed.
pub open spec fn closed_the_map(events: Seq<NavEvent>) -> bool {
    exists|i: int| closes_map(events, i)
}

proof fn lemma_clicks_so_far(events: Seq<NavEvent>)
    requires
        events.len() > 0,
    ensures
        ({
            let before = events.drop_last();
            let last = events.len() - 1;
            &&& clicked_a_target(events) <==> clicked_a_target(before) || clicks_target(
                events,
                last,
            )
            &&& closed_the_map(events) <==> closed_the_map(before) || closes_map(events, last)
            &&& events.take(last) == before
        }),
{
    let before = events.drop_last();
    let last = events.len() - 1;
    assert(events.take(last) =~= before);
    assert forall|i: int| 0 <= i < last implies #[trigger] clicks_target(before, i)
        == clicks_target(events, i) && closes_map(before, i) == closes_map(events, i) by {
        assert(events.take(i) =~= before.take(i));
        assert(events[i] == before[i]);
    }
    assert forall|i: int| 0 <= i < last implies clicks_target(before, i) == #[trigger] clicks_target(
        events,
        i,
    ) by {
        assert(clicks_target(before, i) == clicks_target(events, i));
    }
    assert forall|i: int| 0 <= i < last implies #[trigger] closes_map(before, i) == closes_map(
        events,
        i,
    ) by {
        assert(clicks_target(before, i) == clicks_target(events, i));
    }
    assert forall|i: int| 0 <= i < last implies closes_map(before, i) == #[trigger] closes_map(
        events,
        i,
    ) by {
        assert(clicks_target(before, i) == clicks_target(events, i));
    }
}

/// What was clicked is what the stage says.
proof fn lemma_stage_knows_the_clicks(events: Seq<NavEvent>)
    ensures
        match stage_after(events) {
            NavStage::Closing { clicked, .. } => clicked == clicked_a_target(events)
                && !closed_the_map(events),
            NavStage::Finished { outcome } => (outcome == NavOutcome::Walking) == (
            clicked_a_target(events) && closed_the_map(events)),
            _ => !clicked_a_target(events) && !closed_the_map(events),
        },
    decreases events.len(),
{
    if events.len() > 0 {
        lemma_stage_knows_the_clicks(events.drop_last());
        lemma_clicks_so_far(events);
    }
}

/// A walk ends with the game walking exactly when it ended, a target was clicked on the
/// open map, and the map was closed.
pub proof fn law_walking_means_clicked_and_closed(events: Seq<NavEvent>)
    ensures
        stage_after(events) == (NavStage::Finished { outcome: NavOutcome::Walking }) <==> (
        stage_after(events) is Finished && clicked_a_target(events) && closed_the_map(events)),
{
    lemma_stage_knows_the_clicks(events);
}

/// An open map is not left open: whatever was chosen on it, the next step is to close
/// it, and the walk does not end before the close button was looked for. Only where the
/// image work failed does the walk end at once. Where no screenshot can be taken any
/// more, the map is closed where its button was seen before.
pub proof fn law_an_open_map_is_closed(
    event: NavEvent,
    target: Option<(i32, i32)>,
    close_at: (i32, i32),
    clicked: bool,
    at: (i32, i32),
)
    ensures
        nav_step(NavStage::Choosing { close_at }, NavEvent::Chosen { target }).0 == (
        NavStage::Closing { clicked: target is Some, close_at }),
        event != NavEvent::Error ==> !(nav_step(NavStage::Choosing { close_at }, event).0
            is Finished),
        nav_step(
            NavStage::Closing { clicked, close_at },
            NavEvent::Captured { close_at: Some(at) },
        ).1 == (NavAction::Click { at, wait_ms: PANEL_WAIT_MS }),
        nav_step(NavStage::Closing { clicked, close_at }, NavEvent::CaptureFailed).1 == (
        NavAction::Click { at: close_at, wait_ms: PANEL_WAIT_MS }),
{
}

/// The pixels that are collected are those that are set, each of them once.
pub proof fn law_every_set_pixel_is_collected(mask: Seq<u8>, cols: int, rows: int, x: i32, y: i32)
    requires
        0 < cols <= i32::MAX,
        0 <= rows <= i32::MAX,
        mask.len() <= cols * rows,
        0 <= x < cols,
        0 <= y,
    ensures
        set_pixels(mask, cols).contains((x, y)) <==> y * cols + x < mask.len() && mask[y * cols
            + x] > 0,
        set_pixels(mask, cols).no_duplicates(),
    decreases mask.len(),
{
    let all = set_pixels(mask, cols);
    assert(y * cols + x >= 0) by (nonlinear_arith)
        requires
            0 <= x,
            0 <= y,
            0 < cols,
    ;
    if mask.len() > 0 {
        let last = mask.len() - 1;
        let fewer = mask.drop_last();
        let before = set_pixels(fewer, cols);
        law_every_set_pixel_is_collected(fewer, cols, rows, x, y);
        let col = last % cols;
        let row = last / cols;
        vstd::arithmetic::div_mod::lemma_fundamental_div_mod(last, cols);
        assert(0 <= row < rows && last == row * cols + col && 0 <= col < cols) by (nonlinear_arith)
            requires
                0 <= last < cols * rows,
                last == cols * row + col,
                0 <= col < cols,
                cols > 0,
        ;
        assert((x == col && y == row) <==> y * cols + x == last) by (nonlinear_arith)
            requires
                last == row * cols + col,
                0 <= col < cols,
                0 <= x < cols,
        ;
        if y * cols + x < last {
            assert(fewer[y * cols + x] == mask[y * cols + x]);
        }
        let p = (col as i32, row as i32);
        law_every_set_pixel_is_collected(fewer, cols, rows, p.0, p.1);
        assert(!before.contains(p));
        if mask.last() > 0 {
            assert(all == before.push(p));
            assert(all[before.len() as int] == p);
            if before.contains((x, y)) {
                let k = choose|k: int| 0 <= k < before.len() && before[k] == (x, y);
                assert(all[k] == (x, y));
            }
            if all.contains((x, y)) && p != (x, y) {
                let k = choose|k: int| 0 <= k < all.len() && all[k] == (x, y);
                assert(before[k] == (x, y));
            }
            assert forall|i: int, j: int|
                0 <= i < all.len() && 0 <= j < all.len() && i != j implies all[i] != all[j] by {
                if i < before.len() {
                    assert(before[i] == all[i]);
                    assert(before.contains(all[i]));
                }
                if j < before.len() {
                    assert(before[j] == all[j]);
                    assert(before.contains(all[j]));
                }
            }
        }
    }
}

/// A pixel can be chosen exactly when it is set in the eroded component, or, where that has
/// no pixel at all, when it is set in the whole one.
pub proof fn law_safe_points_come_first(
    safe: Seq<u8>,
    main: Seq<u8>,
    cols: int,
    rows: int,
    x: i32,
    y: i32,
)
    requires
        0 < cols <= i32::MAX,
        0 <= rows <= i32::MAX,
        safe.len() == cols * rows,
        main.len() == cols * rows,
        0 <= x < cols,
        0 <= y < rows,
    ensures
        (exists|i: int| 0 <= i < safe.len() && #[trigger] safe[i] > 0) ==> (candidates(
            safe,
            main,
            cols,
        ).contains((x, y)) <==> safe[y * cols + x] > 0),
        (forall|i: int| 0 <= i < safe.len() ==> #[trigger] safe[i] == 0) ==> (candidates(
            safe,
            main,
            cols,
        ).contains((x, y)) <==> main[y * cols + x] > 0),
{
    law_every_set_pixel_is_collected(safe, cols, rows, x, y);
    law_every_set_pixel_is_collected(main, cols, rows, x, y);
    lemma_set_pixels(safe, cols, rows);
    assert(0 <= y * cols + x < cols * rows) by (nonlinear_arith)
        requires
            0 <= x < cols,
            0 <= y < rows,
    ;
    if set_pixels(safe, cols).len() > 0 {
        let p = set_pixels(safe, cols)[0];
        assert(set_pixels(safe, cols).contains(p));
        assert(safe[p.1 * cols + p.0] > 0);
        assert(0 <= p.1 * cols + p.0) by (nonlinear_arith)
            requires
                0 <= p.0,
                0 <= p.1,
                0 < cols,
        ;
    }
}

/// Where no component has an area, the first one is chosen; the background never is.
pub proof fn law_the_background_is_not_chosen(areas: Seq<i32>)
    requires
        areas.len() > 1,
    ensures
        largest_label(areas) >= 1,
        (forall|i: int| 1 <= i < areas.len() ==> #[trigger] areas[i] <= 0) ==> largest_label(areas)
            == 1,
    decreases areas.len(),
{
    reveal_with_fuel(largest_label, 2);
    if areas.len() > 2 {
        let fewer = areas.drop_last();
        law_the_background_is_not_chosen(fewer);
        if forall|i: int| 1 <= i < areas.len() ==> #[trigger] areas[i] <= 0 {
            assert forall|i: int| 1 <= i < fewer.len() implies #[trigger] fewer[i] <= 0 by {
                assert(fewer[i] == areas[i]);
            }
            assert(areas[areas.len() - 1] <= 0);
        }
    }
}

/// A walk from its start to its end: the map is opened with a click and 200 milliseconds
/// pass, the target is clicked and 100 milliseconds pass, the map is closed where its
/// button is by then and 200 milliseconds pass.
pub proof fn law_a_walk_goes_step_by_step(
    open_at: (i32, i32),
    seen: (i32, i32),
    target: (i32, i32),
    close_at: (i32, i32),
)
    ensures
        ({
            let events = seq![
                NavEvent::Start { open_at },
                NavEvent::Captured { close_at: Some(seen) },
                NavEvent::Chosen { target: Some(target) },
                NavEvent::Captured { close_at: Some(close_at) },
            ];
            &&& action_at(events, 0) == (NavAction::ClickAndCapture { at: open_at, wait_ms: 200 })
            &&& action_at(events, 1) == NavAction::ChooseTarget
            &&& action_at(events, 2) == (NavAction::ClickAndCapture { at: target, wait_ms: 100 })
            &&& action_at(events, 3) == (NavAction::Click { at: close_at, wait_ms: 200 })
            &&& stage_after(events) == (NavStage::Finished { outcome: NavOutcome::Walking })
        }),
{
    let events = seq![
        NavEvent::Start { open_at },
        NavEvent::Captured { close_at: Some(seen) },
        NavEvent::Chosen { target: Some(target) },
        NavEvent::Captured { close_at: Some(close_at) },
    ];
    let none = Seq::<NavEvent>::empty();
    assert(events.take(0) =~= none);
    assert(events.take(1).drop_last() =~= none);
    assert(events.take(2).drop_last() =~= events.take(1));
    assert(events.take(3).drop_last() =~= events.take(2));
    assert(events.drop_last() =~= events.take(3));
    assert(stage_after(none) == NavStage::Idle);
    assert(stage_after(events.take(1)) == NavStage::Opening);
    assert(stage_after(events.take(2)) == (NavStage::Choosing { close_at: seen }));
    assert(stage_after(events.take(3)) == (NavStage::Closing { clicked: true, close_at: seen }));
}

/// A map that did not show its close button, and a screenshot that failed, end the walk
/// without another click. A map without a target is closed, but nothing walks. A walk that
/// is over stays over.
pub proof fn law_a_walk_that_cannot_go_on_ends(
    close_at: (i32, i32),
    at: (i32, i32),
    clicked: bool,
    event: NavEvent,
    outcome: NavOutcome,
)
    ensures
        nav_step(NavStage::Opening, NavEvent::Captured { close_at: None }) == (
            NavStage::Finished { outcome: NavOutcome::Unsupported },
            NavAction::Nothing,
        ),
        nav_step(NavStage::Opening, NavEvent::CaptureFailed) == (
            NavStage::Finished { outcome: NavOutcome::Unsupported },
            NavAction::Nothing,
        ),
        nav_step(NavStage::Choosing { close_at }, NavEvent::Error) == (
            NavStage::Finished { outcome: NavOutcome::Failed },
            NavAction::Nothing,
        ),
        nav_step(NavStage::Choosing { close_at }, NavEvent::Chosen { target: None }).1
            == NavAction::Capture,
        nav_step(
            NavStage::Closing { clicked: false, close_at },
            NavEvent::Captured { close_at: Some(at) },
        ).0 == (NavStage::Finished { outcome: NavOutcome::Unsupported }),
        nav_step(NavStage::Closing { clicked, close_at }, NavEvent::Captured { close_at: None })
            == (
            NavStage::Finished { outcome: NavOutcome::Unsupported },
            NavAction::Nothing,
        ),
        nav_step(NavStage::Finished { outcome }, event) == (
            NavStage::Finished { outcome },
            NavAction::Nothing,
        ),
{
}

/// The map itself usually lies between 145 and 696 thousandths of the width and between
/// 335 and 819 of the height, and a click at 900 thousandths of the width and 160 of the
/// height opens it.
pub proof fn law_the_map_is_in_the_middle(
    r: Rect,
    frame_w: int,
    frame_h: int,
    cfg: NavConfig,
    dir: ProjectDir,
)
    requires
        cfg.is_default_in(dir),
        geometry::is_region(
            r,
            frame_w,
            frame_h,
            cfg.canvas_left_frac@,
            cfg.canvas_top_frac@,
            cfg.canvas_right_frac@,
            cfg.canvas_bottom_frac@,
        ),
        0 <= frame_w <= i32::MAX,
        0 <= frame_h <= i32::MAX,
    ensures
        geometry::is_between_thousandths(r, frame_w, frame_h, 145, 335, 696, 819),
        ({
            let x = double::scaled(frame_w, cfg.open_click_x_frac@ as int);
            let y = double::scaled(frame_h, cfg.open_click_y_frac@ as int);
            &&& 1000 * x <= 900 * frame_w <= 1000 * (x + 1)
            &&& 1000 * y <= 160 * frame_h <= 1000 * (y + 1)
        }),
{
    geometry::law_regions_lie_between_thousandths(r, frame_w, frame_h, 145, 335, 696, 819);
    double::law_thousandths_of_an_extent(frame_w, 900, 900);
    double::law_thousandths_of_an_extent(frame_h, 160, 160);
}

} // verus!
