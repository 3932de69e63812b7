//! Detection of monster names as strips of white text.
//!
//! The image work (colour thresholds, closing, connected components) is done by
//! the caller. This module says where to look, which connected components are
//! names, and what to do with those that are too large.
use crate::double;
use crate::double::Double;
use crate::geometry;
use crate::geometry::Rect;
use vstd::prelude::*;

verus! {

/// Width of the strip in which the title bar is looked for.
pub const SCAN_WIDTH: i32 = 800;

/// Height of the strip in which the title bar is looked for.
pub const SCAN_HEIGHT: i32 = 200;

/// Difference in mean brightness between two rows that marks the end of the
/// title bar.
pub const JUMP_THRESHOLD: u32 = 60;

/// Pixels that are looked at around an oversized component.
pub const RECOVERY_MARGIN: u8 = 4;

/// A candidate strip of text, in the coordinates of the frame.
#[derive(Clone, Copy, Debug, PartialEq, Eq, Structural)]
pub struct TextBox {
    pub x: i32,
    pub y: i32,
    pub w: i32,
    pub h: i32,
    pub area: i32,
}

impl TextBox {
    /// The place of the box.
    pub open spec fn place(self) -> Rect {
        Rect { x: self.x, y: self.y, w: self.w, h: self.h }
    }

    /// The place of the box.
    pub fn rect(&self) -> (r: Rect)
        ensures
            r == self.place(),
    {
        Rect { x: self.x, y: self.y, w: self.w, h: self.h }
    }

    /// Whether the box is so wide that it probably holds several names: wider
    /// than one and a six tenths typical names.
    pub fn looks_merged(&self, typical_name_width: i32) -> (r: bool)
        ensures
            r == (self.w > double::scaled(
                typical_name_width as int,
                double::thousandths_units(1600) as int,
            )),
    {
        self.w > Double::thousandths(1600).of(typical_name_width as i64)
    }

    /// The middle of the box.
    pub fn center(&self) -> (r: (i32, i32))
        requires
            geometry::fits_i32(self.x + geometry::half(self.w as int)),
            geometry::fits_i32(self.y + geometry::half(self.h as int)),
        ensures
            r.0 == self.x + geometry::half(self.w as int),
            r.1 == self.y + geometry::half(self.h as int),
    {
        (self.x + geometry::halved(self.w), self.y + geometry::halved(self.h))
    }
}

/// A connected component of a mask: its bounding box and its pixel count.
#[derive(Clone, Copy, Debug, PartialEq, Eq, Structural)]
pub struct Blob {
    pub x: i32,
    pub y: i32,
    pub w: i32,
    pub h: i32,
    pub area: i32,
}

/// Calibration of the detection. Borders are shares of the game picture.
#[derive(Clone, Copy, Debug)]
pub struct DetectorConfig {
    /// Left border of the battle area.
    pub roi_left_frac: Double,
    /// Upper border of the battle area.
    pub roi_top_frac: Double,
    /// Right border of the battle area.
    pub roi_right_frac: Double,
    /// Lower border of the battle area.
    pub roi_bottom_frac: Double,
    /// Highest saturation of white text.
    pub s_max: Double,
    /// Lowest brightness of white text.
    pub v_min: Double,
    /// Whether a title bar is looked for and left out.
    pub auto_crop_titlebar: bool,
    /// Size of the closing that joins the strokes of a word.
    pub close_kernel_w: i32,
    pub close_kernel_h: i32,
    /// Open bounds on the size of a name.
    pub min_h: i32,
    pub max_h: i32,
    pub min_w: i32,
    pub max_w: i32,
    pub min_area: i32,
    /// Lowest ratio of width to height of a name.
    pub min_aspect_ratio: Double,
    /// Size of the closing for components that came out too large.
    pub fallback_close_kernel_w: i32,
    pub fallback_close_kernel_h: i32,
}

impl DetectorConfig {
    /// The calibration that is used where nothing else is configured.
    pub open spec fn is_default(self) -> bool {
        &&& self.roi_left_frac@ == double::thousandths_units(80)
        &&& self.roi_top_frac@ == double::thousandths_units(200)
        &&& self.roi_right_frac@ == double::thousandths_units(680)
        &&& self.roi_bottom_frac@ == double::thousandths_units(620)
        &&& self.s_max@ == double::thousandths_units(50000)
        &&& self.v_min@ == double::thousandths_units(140000)
        &&& self.auto_crop_titlebar
        &&& self.close_kernel_w == 35
        &&& self.close_kernel_h == 13
        &&& self.min_h == 15
        &&& self.max_h == 55
        &&& self.min_w == 30
        &&& self.max_w == 320
        &&& self.min_area == 150
        &&& self.min_aspect_ratio@ == double::thousandths_units(1300)
        &&& self.fallback_close_kernel_w == 25
        &&& self.fallback_close_kernel_h == 5
    }
}

impl Default for DetectorConfig {
    fn default() -> (r: DetectorConfig)
        ensures
            r.is_default(),
    {
        DetectorConfig {
            roi_left_frac: Double::thousandths(80),
            roi_top_frac: Double::thousandths(200),
            roi_right_frac: Double::thousandths(680),
            roi_bottom_frac: Double::thousandths(620),
            s_max: Double::thousandths(50000),
            v_min: Double::thousandths(140000),
            auto_crop_titlebar: true,
            close_kernel_w: 35,
            close_kernel_h: 13,
            min_h: 15,
            max_h: 55,
            min_w: 30,
            max_w: 320,
            min_area: 150,
            min_aspect_ratio: Double::thousandths(1300),
            fallback_close_kernel_w: 25,
            fallback_close_kernel_h: 5,
        }
    }
}

/// An image of three bytes a pixel, blue first, row by row.
#[derive(Debug)]
pub struct BgrMat {
    pub cols: i32,
    pub rows: i32,
    pub data: Vec<u8>,
}

/// Byte `i` of an image whose pixels are those of `raw`, blue first and without alpha.
pub open spec fn bgr_byte(raw: Seq<u8>, i: int) -> u8 {
    raw[4 * (i / 3) + 2 - i % 3]
}

/// A screenshot as an image with blue first.
pub fn rgba_bytes_to_bgr_mat(raw_rgba: &[u8], width: u32, height: u32) -> (r: BgrMat)
    requires
        width <= i32::MAX,
        height <= i32::MAX,
        4 * (width * height) <= raw_rgba@.len(),
    ensures
        r.cols == width,
        r.rows == height,
        r.data@ == Seq::new(
            (3 * (width * height)) as nat,
            |i: int| bgr_byte(raw_rgba@, i),
        ),
{
    let length: usize = raw_rgba.len();
    assert(0 <= width * height) by (nonlinear_arith);
    let total: usize = (width as u64 * height as u64) as usize;
    let mut data: Vec<u8> = Vec::new();
    let mut k: usize = 0;
    while k < total
        invariant
            k <= total,
            length == raw_rgba@.len(),
            4 * total <= length,
            data@.len() == 3 * k,
            forall|i: int| 0 <= i < 3 * k ==> data@[i] == bgr_byte(raw_rgba@, i),
        decreases total - k,
    {
        data.push(raw_rgba[4 * k + 2]);
        data.push(raw_rgba[4 * k + 1]);
        data.push(raw_rgba[4 * k]);
        assert(3 * k / 3 == k && (3 * k + 1) / 3 == k && (3 * k + 2) / 3 == k);
        k = k + 1;
    }
    BgrMat { cols: width as i32, rows: height as i32, data }
}

/// The strip of the frame whose rows are averaged to find the title bar.
pub fn canvas_sample(width: i32, height: i32) -> (r: Rect)
    ensures
        r.x == 0,
        r.y == 0,
        r.w == geometry::min_int(width as int, SCAN_WIDTH as int),
        r.h == geometry::min_int(height as int, SCAN_HEIGHT as int),
{
    Rect {
        x: 0,
        y: 0,
        w: if width <= SCAN_WIDTH {
            width
        } else {
            SCAN_WIDTH
        },
        h: if height <= SCAN_HEIGHT {
            height
        } else {
            SCAN_HEIGHT
        },
    }
}

/// The mean brightness jumps, up or down, between row `y - 1` and row `y`.
pub open spec fn jumps_at(row_means: Seq<Double>, y: int) -> bool {
    double::magnitude(double::rounded_difference(row_means[y - 1]@, row_means[y]@))
        > JUMP_THRESHOLD * double::UNITS_PER_ONE
}

/// `top` is the first row that the brightness jumps at, and zero without a jump.
pub open spec fn is_canvas_top(row_means: Seq<Double>, top: int) -> bool {
    if top == 0 {
        forall|y: int| 1 <= y < row_means.len() ==> !jumps_at(row_means, y)
    } else {
        &&& 1 <= top < row_means.len()
        &&& jumps_at(row_means, top)
        &&& forall|y: int| 1 <= y < top ==> !jumps_at(row_means, y)
    }
}

/// The first row below the title bar, from the mean brightness of the top rows.
pub fn detect_canvas_top(row_means: &[Double]) -> (top: i32)
    requires
        row_means@.len() <= i32::MAX,
    ensures
        is_canvas_top(row_means@, top as int),
{
    let mut y: usize = 1;
    while y < row_means.len()
        invariant
            1 <= y,
            y <= row_means@.len() || y == 1,
            row_means@.len() <= i32::MAX,
            forall|z: int| 1 <= z < y ==> !jumps_at(row_means@, z),
        decreases row_means.len() - y,
    {
        if row_means[y - 1].differs_by_more_than(&row_means[y], JUMP_THRESHOLD) {
            assert(jumps_at(row_means@, y as int));
            return y as i32;
        }
        y = y + 1;
    }
    0
}

/// `r` is the battle area of a frame whose game picture begins at row `top`.
pub open spec fn is_battle_region(
    r: Rect,
    width: int,
    height: int,
    top: int,
    cfg: DetectorConfig,
) -> bool {
    &&& r.x == double::scaled(width, cfg.roi_left_frac@ as int)
    &&& r.y == top + double::scaled(height - top, cfg.roi_top_frac@ as int)
    &&& r.w == double::scaled(
        width,
        double::rounded_difference(cfg.roi_right_frac@, cfg.roi_left_frac@),
    )
    &&& r.h == double::scaled(
        height - top,
        double::rounded_difference(cfg.roi_bottom_frac@, cfg.roi_top_frac@),
    )
}

/// `top` is the first row of the game picture.
pub open spec fn is_picture_top(row_means: Seq<Double>, top: int, cfg: DetectorConfig) -> bool {
    if cfg.auto_crop_titlebar {
        is_canvas_top(row_means, top)
    } else {
        top == 0
    }
}

/// The battle area of a frame, given the mean brightness of its top rows; `None` where it
/// begins beyond the range of coordinates.
pub fn battle_region(width: i32, height: i32, row_means: &[Double], cfg: &DetectorConfig) -> (r:
    Option<Rect>)
    requires
        row_means@.len() <= i32::MAX,
    ensures
        exists|top: int| #[trigger]
            is_picture_top(row_means@, top, *cfg) && match r {
                Some(area) => is_battle_region(area, width as int, height as int, top, *cfg),
                None => !geometry::fits_i32(
                    top + double::scaled(height - top, cfg.roi_top_frac@ as int),
                ),
            },
{
    let top: i32 = if cfg.auto_crop_titlebar {
        detect_canvas_top(row_means)
    } else {
        0
    };
    assert(is_picture_top(row_means@, top as int, *cfg));
    let rest: i64 = height as i64 - top as i64;
    match top.checked_add(cfg.roi_top_frac.of(rest)) {
        Some(y) => Some(
            Rect {
                x: cfg.roi_left_frac.of(width as i64),
                y,
                w: cfg.roi_left_frac.span_of(&cfg.roi_right_frac, width as i64),
                h: cfg.roi_top_frac.span_of(&cfg.roi_bottom_frac, rest),
            },
        ),
        None => None,
    }
}

/// The battle area lies inside the frame when its borders are shares of the
/// picture in order.
pub proof fn law_battle_region_lies_in_the_frame(
    r: Rect,
    width: int,
    height: int,
    top: int,
    cfg: DetectorConfig,
)
    requires
        is_battle_region(r, width, height, top, cfg),
        0 <= width <= i32::MAX,
        0 <= top <= height <= i32::MAX,
        cfg.roi_left_frac@ <= cfg.roi_right_frac@ <= double::UNITS_PER_ONE,
        cfg.roi_top_frac@ <= cfg.roi_bottom_frac@ <= double::UNITS_PER_ONE,
    ensures
        0 <= r.x && 0 <= r.w && r.x + r.w <= width,
        top <= r.y && 0 <= r.h && r.y + r.h <= height,
{
    double::law_region_is_within_the_extent(width, cfg.roi_left_frac@, cfg.roi_right_frac@);
    double::law_region_is_within_the_extent(height - top, cfg.roi_top_frac@, cfg.roi_bottom_frac@);
}

/// A component has the size and the shape of a name.
pub open spec fn is_name(b: Blob, cfg: DetectorConfig) -> bool {
    &&& cfg.min_h < b.h < cfg.max_h
    &&& cfg.min_w < b.w < cfg.max_w
    &&& b.area > cfg.min_area
    &&& double::quotient_reaches(b.w as int, b.h as int, cfg.min_aspect_ratio@)
}

/// A component that is as wide or as high as a name may not be.
pub open spec fn is_oversized(b: Blob, cfg: DetectorConfig) -> bool {
    b.w >= cfg.max_w || b.h >= cfg.max_h
}

/// The text box of a component that was found `dx`, `dy` away from the corner of
/// the frame.
pub open spec fn box_at(b: Blob, dx: int, dy: int) -> TextBox {
    TextBox { x: (b.x + dx) as i32, y: (b.y + dy) as i32, w: b.w, h: b.h, area: b.area }
}

/// The components that are names can be placed in the frame.
pub open spec fn names_fit(blobs: Seq<Blob>, dx: int, dy: int, cfg: DetectorConfig) -> bool {
    forall|i: int|
        0 <= i < blobs.len() && is_name(#[trigger] blobs[i], cfg) ==> geometry::fits_i32(
            blobs[i].x + dx,
        ) && geometry::fits_i32(blobs[i].y + dy)
}

/// The text boxes of the components that are names, in order.
pub open spec fn name_boxes(blobs: Seq<Blob>, dx: int, dy: int, cfg: DetectorConfig) -> Seq<TextBox>
    decreases blobs.len(),
{
    if blobs.len() == 0 {
        Seq::empty()
    } else {
        let before = name_boxes(blobs.drop_last(), dx, dy, cfg);
        if is_name(blobs.last(), cfg) {
            before.push(box_at(blobs.last(), dx, dy))
        } else {
            before
        }
    }
}

/// Whether a component has the size and the shape of a name.
pub fn looks_like_name(b: &Blob, cfg: &DetectorConfig) -> (r: bool)
    ensures
        r == is_name(*b, *cfg),
{
    b.h > cfg.min_h && b.h < cfg.max_h && b.w > cfg.min_w && b.w < cfg.max_w && b.area
        > cfg.min_area && cfg.min_aspect_ratio.reached_by(b.w, b.h)
}

/// The part of the mask in which an oversized component is analysed again;
/// `None` for a component that is not retried.
pub fn recovery_window(b: &Blob, mask_cols: i32, mask_rows: i32, cfg: &DetectorConfig) -> (r:
    Option<Rect>)
    ensures
        ({
            let place = Rect { x: b.x, y: b.y, w: b.w, h: b.h };
            let margin = RECOVERY_MARGIN as int;
            match r {
                Some(cut) => {
                    &&& !is_name(*b, *cfg) && is_oversized(*b, *cfg)
                    &&& geometry::is_padded(cut, place, margin, mask_cols as int, mask_rows as int)
                    &&& cut.w > 0 && cut.h > 0
                },
                None => {
                    ||| is_name(*b, *cfg) || !is_oversized(*b, *cfg)
                    ||| forall|cut: Rect| #[trigger]
                        geometry::is_padded(
                            cut,
                            place,
                            margin,
                            mask_cols as int,
                            mask_rows as int,
                        ) ==> cut.w <= 0 || cut.h <= 0
                },
            }
        }),
{
    if looks_like_name(b, cfg) {
        return None;
    }
    if b.w >= cfg.max_w || b.h >= cfg.max_h {
        let place: Rect = Rect { x: b.x, y: b.y, w: b.w, h: b.h };
        geometry::padded(&place, RECOVERY_MARGIN, mask_cols, mask_rows)
    } else {
        None
    }
}

/// The names among the components that an oversized one fell into. `window` is
/// where it was analysed again, `roi_x` and `roi_y` the corner of the battle area.
pub fn recover_oversized_blob(
    parts: &[Blob],
    window: &Rect,
    cfg: &DetectorConfig,
    roi_x: i32,
    roi_y: i32,
) -> (boxes: Vec<TextBox>)
    requires
        names_fit(parts@, roi_x + window.x, roi_y + window.y, *cfg),
    ensures
        boxes@ == name_boxes(parts@, roi_x + window.x, roi_y + window.y, *cfg),
{
    let dx: i64 = roi_x as i64 + window.x as i64;
    let dy: i64 = roi_y as i64 + window.y as i64;
    let mut boxes: Vec<TextBox> = Vec::new();
    let mut i: usize = 0;
    assert(parts@.take(0) =~= Seq::<Blob>::empty());
    while i < parts.len()
        invariant
            i <= parts@.len(),
            dx == roi_x + window.x,
            dy == roi_y + window.y,
            names_fit(parts@, dx as int, dy as int, *cfg),
            boxes@ == name_boxes(parts@.take(i as int), dx as int, dy as int, *cfg),
        decreases parts.len() - i,
    {
        let b: Blob = parts[i];
        assert(b == parts@[i as int]);
        assert(parts@.take(i + 1).drop_last() =~= parts@.take(i as int));
        if looks_like_name(&b, cfg) {
            boxes.push(
                TextBox {
                    x: (b.x as i64 + dx) as i32,
                    y: (b.y as i64 + dy) as i32,
                    w: b.w,
                    h: b.h,
                    area: b.area,
                },
            );
        }
        i = i + 1;
    }
    assert(parts@.take(parts@.len() as int) =~= parts@);
    boxes
}

/// What the components of a frame yield: a name is a box, an oversized component
/// is what was recovered of it, anything else is nothing.
pub open spec fn detected(
    blobs: Seq<Blob>,
    recovered: Seq<Seq<TextBox>>,
    roi: Rect,
    cfg: DetectorConfig,
) -> Seq<TextBox>
    decreases blobs.len(),
{
    if blobs.len() == 0 {
        Seq::empty()
    } else {
        let before = detected(blobs.drop_last(), recovered.drop_last(), roi, cfg);
        if is_name(blobs.last(), cfg) {
            before.push(box_at(blobs.last(), roi.x as int, roi.y as int))
        } else if is_oversized(blobs.last(), cfg) {
            before + recovered.last()
        } else {
            before
        }
    }
}

pub open spec fn box_lists(lists: Seq<Vec<TextBox>>) -> Seq<Seq<TextBox>> {
    lists.map_values(|l: Vec<TextBox>| l@)
}

/// The candidate boxes of a frame. `recovered` holds, for each component, the
/// boxes that came out of analysing it again.
pub fn detect_monster_names(
    blobs: &[Blob],
    recovered: &[Vec<TextBox>],
    roi: &Rect,
    cfg: &DetectorConfig,
) -> (boxes: Vec<TextBox>)
    requires
        recovered@.len() == blobs@.len(),
        names_fit(blobs@, roi.x as int, roi.y as int, *cfg),
    ensures
        boxes@ == detected(blobs@, box_lists(recovered@), *roi, *cfg),
{
    let mut boxes: Vec<TextBox> = Vec::new();
    let mut i: usize = 0;
    let ghost lists = box_lists(recovered@);
    assert(blobs@.take(0) =~= Seq::<Blob>::empty());
    while i < blobs.len()
        invariant
            i <= blobs@.len(),
            recovered@.len() == blobs@.len(),
            lists == box_lists(recovered@),
            names_fit(blobs@, roi.x as int, roi.y as int, *cfg),
            boxes@ == detected(blobs@.take(i as int), lists.take(i as int), *roi, *cfg),
        decreases blobs.len() - i,
    {
        let b: Blob = blobs[i];
        assert(b == blobs@[i as int]);
        assert(blobs@.take(i + 1).drop_last() =~= blobs@.take(i as int));
        assert(lists.take(i + 1).drop_last() =~= lists.take(i as int));
        assert(lists.take(i + 1).last() == recovered@[i as int]@);
        if looks_like_name(&b, cfg) {
            boxes.push(
                TextBox { x: b.x + roi.x, y: b.y + roi.y, w: b.w, h: b.h, area: b.area },
            );
        } else if b.w >= cfg.max_w || b.h >= cfg.max_h {
            append_boxes(&mut boxes, &recovered[i]);
        }
        i = i + 1;
    }
    assert(blobs@.take(blobs@.len() as int) =~= blobs@);
    assert(lists.take(blobs@.len() as int) =~= lists);
    boxes
}

fn append_boxes(boxes: &mut Vec<TextBox>, more: &Vec<TextBox>)
    ensures
        final(boxes)@ == old(boxes)@ + more@,
{
    let mut i: usize = 0;
    assert(boxes@ =~= old(boxes)@ + more@.take(0));
    while i < more.len()
        invariant
            i <= more@.len(),
            boxes@ == old(boxes)@ + more@.take(i as int),
        decreases more.len() - i,
    {
        boxes.push(more[i]);
        assert(more@.take(i + 1) =~= more@.take(i as int).push(more@[i as int]));
        assert(boxes@ =~= old(boxes)@ + more@.take(i + 1));
        i = i + 1;
    }
    assert(more@.take(more@.len() as int) =~= more@);
}

/// A box has the size and the shape of a name.
pub open spec fn is_name_box(b: TextBox, cfg: DetectorConfig) -> bool {
    is_name(Blob { x: b.x, y: b.y, w: b.w, h: b.h, area: b.area }, cfg)
}

/// Every box that is made of a component itself has the size and the shape of a
/// name.
pub proof fn law_name_boxes_are_names(blobs: Seq<Blob>, dx: int, dy: int, cfg: DetectorConfig)
    ensures
        forall|i: int|
            0 <= i < name_boxes(blobs, dx, dy, cfg).len() ==> is_name_box(
                #[trigger] name_boxes(blobs, dx, dy, cfg)[i],
                cfg,
            ),
    decreases blobs.len(),
{
    if blobs.len() > 0 {
        law_name_boxes_are_names(blobs.drop_last(), dx, dy, cfg);
        let before = name_boxes(blobs.drop_last(), dx, dy, cfg);
        let whole = name_boxes(blobs, dx, dy, cfg);
        assert forall|i: int| 0 <= i < whole.len() implies is_name_box(
            #[trigger] whole[i],
            cfg,
        ) by {
            if i < before.len() {
                assert(whole[i] == before[i]);
            }
        }
    }
}

/// Every candidate box has the size and the shape of a name, as long as the boxes that
/// were recovered of oversized components have.
pub proof fn law_detected_boxes_are_names(
    blobs: Seq<Blob>,
    recovered: Seq<Seq<TextBox>>,
    roi: Rect,
    cfg: DetectorConfig,
)
    requires
        recovered.len() == blobs.len(),
        forall|i: int, k: int|
            0 <= i < recovered.len() && 0 <= k < recovered[i].len() ==> is_name_box(
                #[trigger] recovered[i][k],
                cfg,
            ),
    ensures
        forall|i: int|
            0 <= i < detected(blobs, recovered, roi, cfg).len() ==> is_name_box(
                #[trigger] detected(blobs, recovered, roi, cfg)[i],
                cfg,
            ),
    decreases blobs.len(),
{
    if blobs.len() > 0 {
        let fewer = recovered.drop_last();
        assert forall|i: int, k: int|
            0 <= i < fewer.len() && 0 <= k < fewer[i].len() implies is_name_box(
            #[trigger] fewer[i][k],
            cfg,
        ) by {
            assert(fewer[i][k] == recovered[i][k]);
        }
        law_detected_boxes_are_names(blobs.drop_last(), fewer, roi, cfg);
        let before = detected(blobs.drop_last(), fewer, roi, cfg);
        let whole = detected(blobs, recovered, roi, cfg);
        let last = recovered.len() - 1;
        assert forall|i: int| 0 <= i < whole.len() implies is_name_box(
            #[trigger] whole[i],
            cfg,
        ) by {
            if i < before.len() {
                assert(whole[i] == before[i]);
            } else if !is_name(blobs.last(), cfg) {
                assert(whole[i] == recovered[last][i - before.len()]);
            }
        }
    }
}

/// A component lies in an area of `w` by `h` pixels.
pub open spec fn is_in_area(b: Blob, w: int, h: int) -> bool {
    0 <= b.x && b.x + b.w <= w && 0 <= b.y && b.y + b.h <= h
}

/// The boxes of components that lie in an area lie where that area lies in the frame.
pub proof fn law_name_boxes_stay_in_their_area(
    blobs: Seq<Blob>,
    dx: int,
    dy: int,
    w: int,
    h: int,
    cfg: DetectorConfig,
)
    requires
        names_fit(blobs, dx, dy, cfg),
        forall|i: int| 0 <= i < blobs.len() ==> is_in_area(#[trigger] blobs[i], w, h),
    ensures
        forall|i: int|
            0 <= i < name_boxes(blobs, dx, dy, cfg).len() ==> ({
                let b = #[trigger] name_boxes(blobs, dx, dy, cfg)[i];
                dx <= b.x && b.x + b.w <= dx + w && dy <= b.y && b.y + b.h <= dy + h
            }),
    decreases blobs.len(),
{
    if blobs.len() > 0 {
        let fewer = blobs.drop_last();
        assert forall|i: int| 0 <= i < fewer.len() implies is_in_area(
            #[trigger] fewer[i],
            w,
            h,
        ) by {
            assert(fewer[i] == blobs[i]);
        }
        assert(names_fit(fewer, dx, dy, cfg)) by {
            assert forall|i: int|
                0 <= i < fewer.len() && is_name(
                    #[trigger] fewer[i],
                    cfg,
                ) implies geometry::fits_i32(fewer[i].x + dx) && geometry::fits_i32(
                fewer[i].y + dy,
            ) by {
                assert(fewer[i] == blobs[i]);
            }
        }
        law_name_boxes_stay_in_their_area(fewer, dx, dy, w, h, cfg);
        let before = name_boxes(fewer, dx, dy, cfg);
        let whole = name_boxes(blobs, dx, dy, cfg);
        let last = blobs[blobs.len() - 1];
        assert(is_in_area(last, w, h));
        assert forall|i: int| 0 <= i < whole.len() implies ({
            let b = #[trigger] whole[i];
            dx <= b.x && b.x + b.w <= dx + w && dy <= b.y && b.y + b.h <= dy + h
        }) by {
            if i < before.len() {
                assert(whole[i] == before[i]);
            } else {
                assert(whole[i] == box_at(last, dx, dy));
                assert(is_name(blobs[blobs.len() - 1], cfg));
            }
        }
    }
}

/// A box lies in an area of the frame.
pub open spec fn lies_in(b: TextBox, area: Rect) -> bool {
    &&& area.x <= b.x && b.x + b.w <= area.x + area.w
    &&& area.y <= b.y && b.y + b.h <= area.y + area.h
}

/// What is recovered of an oversized component lies in the battle area, because the part
/// of the mask in which it was analysed again does.
pub proof fn law_recovered_boxes_lie_in_the_battle_area(
    parts: Seq<Blob>,
    window: Rect,
    roi: Rect,
    cfg: DetectorConfig,
)
    requires
        names_fit(parts, roi.x + window.x, roi.y + window.y, cfg),
        forall|i: int|
            0 <= i < parts.len() ==> is_in_area(
                #[trigger] parts[i],
                window.w as int,
                window.h as int,
            ),
        0 <= window.x && window.x + window.w <= roi.w,
        0 <= window.y && window.y + window.h <= roi.h,
    ensures
        ({
            let boxes = name_boxes(parts, roi.x + window.x, roi.y + window.y, cfg);
            forall|i: int| 0 <= i < boxes.len() ==> lies_in(#[trigger] boxes[i], roi)
        }),
{
    law_name_boxes_stay_in_their_area(
        parts,
        roi.x + window.x,
        roi.y + window.y,
        window.w as int,
        window.h as int,
        cfg,
    );
}

/// Every candidate box lies in the battle area, as long as the components and the boxes
/// that were recovered of oversized ones do.
pub proof fn law_detected_boxes_lie_in_the_battle_area(
    blobs: Seq<Blob>,
    recovered: Seq<Seq<TextBox>>,
    roi: Rect,
    cfg: DetectorConfig,
)
    requires
        recovered.len() == blobs.len(),
        names_fit(blobs, roi.x as int, roi.y as int, cfg),
        forall|i: int|
            0 <= i < blobs.len() ==> is_in_area(#[trigger] blobs[i], roi.w as int, roi.h as int),
        forall|i: int, k: int|
            0 <= i < recovered.len() && 0 <= k < recovered[i].len() ==> lies_in(
                #[trigger] recovered[i][k],
                roi,
            ),
    ensures
        ({
            let boxes = detected(blobs, recovered, roi, cfg);
            forall|i: int| 0 <= i < boxes.len() ==> lies_in(#[trigger] boxes[i], roi)
        }),
    decreases blobs.len(),
{
    if blobs.len() > 0 {
        let fewer = blobs.drop_last();
        let lists = recovered.drop_last();
        let last = blobs.len() - 1;
        assert forall|i: int| 0 <= i < fewer.len() implies is_in_area(
            #[trigger] fewer[i],
            roi.w as int,
            roi.h as int,
        ) by {
            assert(fewer[i] == blobs[i]);
        }
        assert(names_fit(fewer, roi.x as int, roi.y as int, cfg)) by {
            assert forall|i: int|
                0 <= i < fewer.len() && is_name(
                    #[trigger] fewer[i],
                    cfg,
                ) implies geometry::fits_i32(fewer[i].x + roi.x) && geometry::fits_i32(
                fewer[i].y + roi.y,
            ) by {
                assert(fewer[i] == blobs[i]);
            }
        }
        assert forall|i: int, k: int|
            0 <= i < lists.len() && 0 <= k < lists[i].len() implies lies_in(
            #[trigger] lists[i][k],
            roi,
        ) by {
            assert(lists[i][k] == recovered[i][k]);
        }
        law_detected_boxes_lie_in_the_battle_area(fewer, lists, roi, cfg);
        let before = detected(fewer, lists, roi, cfg);
        let whole = detected(blobs, recovered, roi, cfg);
        assert(is_in_area(blobs[last], roi.w as int, roi.h as int));
        assert forall|i: int| 0 <= i < whole.len() implies lies_in(#[trigger] whole[i], roi) by {
            if i < before.len() {
                assert(whole[i] == before[i]);
            } else if is_name(blobs[last], cfg) {
                assert(whole[i] == box_at(blobs[last], roi.x as int, roi.y as int));
            } else {
                assert(whole[i] == recovered[last][i - before.len()]);
            }
        }
    }
}

/// The part of a frame that a box covers; `None` when it lies outside.
pub fn crop_rect(b: &TextBox, cols: i32, rows: i32) -> (r: Option<Rect>)
    ensures
        match r {
            Some(cut) => geometry::is_padded(cut, b.place(), 0, cols as int, rows as int) && cut.w
                > 0 && cut.h > 0,
            None => forall|cut: Rect| #[trigger]
                geometry::is_padded(cut, b.place(), 0, cols as int, rows as int) ==> cut.w <= 0
                    || cut.h <= 0,
        },
{
    geometry::padded(&b.rect(), 0, cols, rows)
}

/// A box is made of a component exactly when the component has the size and the shape of a
/// name; it lies where the component lies in the frame and keeps its size.
pub proof fn law_every_name_is_boxed(
    blobs: Seq<Blob>,
    dx: int,
    dy: int,
    cfg: DetectorConfig,
    b: TextBox,
)
    requires
        names_fit(blobs, dx, dy, cfg),
    ensures
        name_boxes(blobs, dx, dy, cfg).contains(b) <==> exists|i: int| #[trigger]
            is_box_of(blobs, i, dx, dy, cfg, b),
    decreases blobs.len(),
{
    let all = name_boxes(blobs, dx, dy, cfg);
    if blobs.len() > 0 {
        let fewer = blobs.drop_last();
        let last = blobs.len() - 1;
        assert(names_fit(fewer, dx, dy, cfg)) by {
            assert forall|i: int|
                0 <= i < fewer.len() && is_name(
                    #[trigger] fewer[i],
                    cfg,
                ) implies geometry::fits_i32(fewer[i].x + dx) && geometry::fits_i32(
                fewer[i].y + dy,
            ) by {
                assert(fewer[i] == blobs[i]);
            }
        }
        assert(is_name(blobs[last], cfg) ==> geometry::fits_i32(blobs[last].x + dx));
        law_every_name_is_boxed(fewer, dx, dy, cfg, b);
        let before = name_boxes(fewer, dx, dy, cfg);
        if all.contains(b) {
            let k = choose|k: int| 0 <= k < all.len() && all[k] == b;
            if k < before.len() {
                assert(before[k] == b);
                let i = choose|i: int| #[trigger] is_box_of(fewer, i, dx, dy, cfg, b);
                assert(is_box_of(blobs, i, dx, dy, cfg, b));
            } else {
                assert(is_box_of(blobs, last, dx, dy, cfg, b));
            }
        }
        if exists|i: int| #[trigger] is_box_of(blobs, i, dx, dy, cfg, b) {
            let i = choose|i: int| #[trigger] is_box_of(blobs, i, dx, dy, cfg, b);
            if i < last {
                assert(is_box_of(fewer, i, dx, dy, cfg, b));
                let k = choose|k: int| 0 <= k < before.len() && before[k] == b;
                assert(all[k] == b);
            } else {
                assert(all[before.len() as int] == b);
            }
        }
    }
}

/// The box is that of component number `i`, which is larger than the lower bounds, smaller
/// than the upper ones, and wide enough for its height.
pub open spec fn is_box_of(
    blobs: Seq<Blob>,
    i: int,
    dx: int,
    dy: int,
    cfg: DetectorConfig,
    b: TextBox,
) -> bool {
    &&& 0 <= i < blobs.len()
    &&& blobs[i].h > cfg.min_h && blobs[i].h < cfg.max_h
    &&& blobs[i].w > cfg.min_w && blobs[i].w < cfg.max_w
    &&& blobs[i].area > cfg.min_area
    &&& double::quotient_reaches(blobs[i].w as int, blobs[i].h as int, cfg.min_aspect_ratio@)
    &&& b.x == blobs[i].x + dx && b.y == blobs[i].y + dy
    &&& b.w == blobs[i].w && b.h == blobs[i].h && b.area == blobs[i].area
}

/// A candidate box is the box of a name, or one that was recovered of a component that is
/// no name and as wide or as high as a name may not be. Nothing else is one, and none of
/// these is lost.
pub proof fn law_every_name_is_detected(
    blobs: Seq<Blob>,
    recovered: Seq<Seq<TextBox>>,
    roi: Rect,
    cfg: DetectorConfig,
    b: TextBox,
)
    requires
        recovered.len() == blobs.len(),
        names_fit(blobs, roi.x as int, roi.y as int, cfg),
    ensures
        detected(blobs, recovered, roi, cfg).contains(b) <==> exists|i: int| #[trigger]
            is_detected_in(blobs, recovered, i, roi, cfg, b),
    decreases blobs.len(),
{
    let all = detected(blobs, recovered, roi, cfg);
    if blobs.len() > 0 {
        let fewer = blobs.drop_last();
        let lists = recovered.drop_last();
        let last = blobs.len() - 1;
        assert(names_fit(fewer, roi.x as int, roi.y as int, cfg)) by {
            assert forall|i: int|
                0 <= i < fewer.len() && is_name(
                    #[trigger] fewer[i],
                    cfg,
                ) implies geometry::fits_i32(fewer[i].x + roi.x) && geometry::fits_i32(
                fewer[i].y + roi.y,
            ) by {
                assert(fewer[i] == blobs[i]);
            }
        }
        assert(is_name(blobs[last], cfg) ==> geometry::fits_i32(blobs[last].x + roi.x));
        law_every_name_is_detected(fewer, lists, roi, cfg, b);
        let before = detected(fewer, lists, roi, cfg);
        if all.contains(b) {
            let k = choose|k: int| 0 <= k < all.len() && all[k] == b;
            if k < before.len() {
                assert(before[k] == b);
                let i = choose|i: int| #[trigger]
                    is_detected_in(fewer, lists, i, roi, cfg, b);
                assert(is_detected_in(blobs, recovered, i, roi, cfg, b));
            } else {
                if !is_name(blobs[last], cfg) {
                    assert(recovered[last][k - before.len()] == b);
                }
                assert(is_detected_in(blobs, recovered, last, roi, cfg, b));
            }
        }
        if exists|i: int| #[trigger] is_detected_in(blobs, recovered, i, roi, cfg, b) {
            let i = choose|i: int| #[trigger] is_detected_in(blobs, recovered, i, roi, cfg, b);
            if i < last {
                assert(is_detected_in(fewer, lists, i, roi, cfg, b));
                let k = choose|k: int| 0 <= k < before.len() && before[k] == b;
                assert(all[k] == b);
            } else if is_name(blobs[last], cfg) {
                assert(all[before.len() as int] == b);
            } else {
                let k = choose|k: int| 0 <= k < recovered[last].len() && recovered[last][k] == b;
                assert(all[before.len() + k] == b);
            }
        }
    }
}

/// The box comes from component number `i`.
pub open spec fn is_detected_in(
    blobs: Seq<Blob>,
    recovered: Seq<Seq<TextBox>>,
    i: int,
    roi: Rect,
    cfg: DetectorConfig,
    b: TextBox,
) -> bool {
    let named = 0 <= i < blobs.len() && blobs[i].h > cfg.min_h && blobs[i].h < cfg.max_h
        && blobs[i].w > cfg.min_w && blobs[i].w < cfg.max_w && blobs[i].area > cfg.min_area
        && double::quotient_reaches(blobs[i].w as int, blobs[i].h as int, cfg.min_aspect_ratio@);
    ||| is_box_of(blobs, i, roi.x as int, roi.y as int, cfg, b)
    ||| {
        &&& 0 <= i < blobs.len()
        &&& !named
        &&& blobs[i].w >= cfg.max_w || blobs[i].h >= cfg.max_h
        &&& recovered[i].contains(b)
    }
}

/// Every pixel of a screenshot comes out with blue first, then green, then red, and its
/// fourth byte is left out.
pub proof fn law_pixels_come_out_with_blue_first(raw: Seq<u8>, pixel: int)
    requires
        0 <= pixel,
    ensures
        bgr_byte(raw, 3 * pixel) == raw[4 * pixel + 2],
        bgr_byte(raw, 3 * pixel + 1) == raw[4 * pixel + 1],
        bgr_byte(raw, 3 * pixel + 2) == raw[4 * pixel],
{
    assert((3 * pixel) / 3 == pixel && (3 * pixel + 1) / 3 == pixel && (3 * pixel + 2) / 3
        == pixel);
}

/// The title bar ends at the first row whose brightness is more than 60 away from that of
/// the row above it, whether it is brighter or darker.
pub proof fn law_the_title_bar_ends_at_a_jump(row_means: Seq<Double>, top: int, y: int)
    requires
        is_canvas_top(row_means, top),
        1 <= y < row_means.len(),
        top == 0 || y <= top,
    ensures
        (y == top) <==> double::magnitude(
            double::rounded_difference(row_means[y]@, row_means[y - 1]@),
        ) > 60 * double::UNITS_PER_ONE,
{
    assert(jumps_at(row_means, y) == (y == top));
}

/// With the usual calibration a component is a name exactly when it is higher than 15 and
/// lower than 55 pixels, wider than 30 and narrower than 320, has more than 150 pixels, and
/// is at least one and three tenths times as wide as high.
pub proof fn law_usual_names_have_these_sizes(b: Blob, cfg: DetectorConfig)
    requires
        cfg.is_default(),
    ensures
        is_name(b, cfg) <==> 15 < b.h < 55 && 30 < b.w < 320 && b.area > 150 && 10 * b.w >= 13
            * b.h,
{
    if 15 < b.h < 55 && 30 < b.w < 320 {
        double::law_ratios_are_compared_exactly(b.w as int, b.h as int, 1300);
    }
}

/// The battle area begins at the pixel of its near shares, counted from the end of the
/// title bar, and is as large as the gaps between the shares, cut to whole pixels.
pub proof fn law_the_battle_area_reaches_from_share_to_share(
    r: Rect,
    width: int,
    height: int,
    top: int,
    cfg: DetectorConfig,
)
    requires
        is_battle_region(r, width, height, top, cfg),
        0 <= width <= i32::MAX,
        0 <= top <= height <= i32::MAX,
        cfg.roi_left_frac@ <= cfg.roi_right_frac@ <= double::UNITS_PER_ONE,
        cfg.roi_top_frac@ <= cfg.roi_bottom_frac@ <= double::UNITS_PER_ONE,
    ensures
        double::is_cut(r.x as int, width * cfg.roi_left_frac@),
        double::is_cut(r.y - top, (height - top) * cfg.roi_top_frac@),
        double::is_cut(r.w as int, width * (cfg.roi_right_frac@ - cfg.roi_left_frac@)),
        double::is_cut(r.h as int, (height - top) * (cfg.roi_bottom_frac@ - cfg.roi_top_frac@)),
{
    double::law_spans_are_cut_to_whole_pixels(width, cfg.roi_left_frac@, cfg.roi_right_frac@);
    double::law_spans_are_cut_to_whole_pixels(
        height - top,
        cfg.roi_top_frac@,
        cfg.roi_bottom_frac@,
    );
}

/// The boxes of components one after the other are the boxes of the first ones and then
/// those of the others.
pub proof fn law_boxes_come_in_the_order_of_the_components(
    a: Seq<Blob>,
    b: Seq<Blob>,
    more: Seq<Seq<TextBox>>,
    others: Seq<Seq<TextBox>>,
    roi: Rect,
    cfg: DetectorConfig,
)
    requires
        more.len() == a.len(),
        others.len() == b.len(),
    ensures
        name_boxes(a + b, roi.x as int, roi.y as int, cfg) == name_boxes(
            a,
            roi.x as int,
            roi.y as int,
            cfg,
        ) + name_boxes(b, roi.x as int, roi.y as int, cfg),
        detected(a + b, more + others, roi, cfg) == detected(a, more, roi, cfg) + detected(
            b,
            others,
            roi,
            cfg,
        ),
    decreases b.len(),
{
    let dx = roi.x as int;
    let dy = roi.y as int;
    if b.len() == 0 {
        assert(a + b =~= a);
        assert(more + others =~= more);
        assert(name_boxes(a, dx, dy, cfg) + name_boxes(b, dx, dy, cfg) =~= name_boxes(
            a,
            dx,
            dy,
            cfg,
        ));
        assert(detected(a, more, roi, cfg) + detected(b, others, roi, cfg) =~= detected(
            a,
            more,
            roi,
            cfg,
        ));
    } else {
        let fewer = b.drop_last();
        let less = others.drop_last();
        law_boxes_come_in_the_order_of_the_components(a, fewer, more, less, roi, cfg);
        assert((a + b).drop_last() =~= a + fewer);
        assert((more + others).drop_last() =~= more + less);
        assert((a + b).last() == b.last() && (more + others).last() == others.last());
        assert(name_boxes(a + b, dx, dy, cfg) =~= name_boxes(a, dx, dy, cfg) + name_boxes(
            b,
            dx,
            dy,
            cfg,
        ));
        assert(detected(a + b, more + others, roi, cfg) =~= detected(a, more, roi, cfg)
            + detected(b, others, roi, cfg));
    }
}

/// The battle area usually lies between 80 and 680 thousandths of the width, and between
/// 200 and 620 thousandths of the height below the title bar.
pub proof fn law_the_battle_is_in_the_middle(
    r: Rect,
    width: int,
    height: int,
    top: int,
    cfg: DetectorConfig,
)
    requires
        cfg.is_default(),
        is_battle_region(r, width, height, top, cfg),
        0 <= width <= i32::MAX,
        0 <= top <= height <= i32::MAX,
    ensures
        1000 * r.x <= 80 * width <= 1000 * (r.x + 1),
        1000 * r.w <= 600 * width <= 1000 * (r.w + 1),
        1000 * (r.y - top) <= 200 * (height - top) <= 1000 * (r.y - top + 1),
        1000 * r.h <= 420 * (height - top) <= 1000 * (r.h + 1),
{
    double::law_thousandths_of_an_extent(width, 80, 680);
    double::law_thousandths_of_an_extent(height - top, 200, 620);
}

} // verus!
