//! Monsters, items and the map name in one reading of the whole frame.
//!
//! A frame is read once. The same text blocks are then searched for wanted
//! monsters, for wanted items and for the name on the map plaque.
use crate::double;
use crate::double::Double;
use crate::geometry;
use crate::geometry::Rect;
use crate::monster_detector;
use crate::monster_detector::{BgrMat, TextBox};
use crate::score::Score;
use crate::text;
use crate::util;
use crate::util::RgbImage;
use crate::whitelist;
use crate::whitelist::Whitelist;
use vstd::prelude::*;

verus! {

/// Encoding of one half, the lowest confidence that is trusted.
pub const HALF_BITS: u32 = 1056964608;

/// Calibration of the reading. Borders are shares of the frame.
#[derive(Clone, Copy, Debug)]
pub struct TextOcrConfig {
    /// Borders of the chat box, which is painted over before the reading.
    pub chat_box_left_frac: Double,
    pub chat_box_top_frac: Double,
    pub chat_box_right_frac: Double,
    pub chat_box_bottom_frac: Double,
    /// Edits that a name of three or more characters may be off by.
    pub max_edit_distance: usize,
    /// Confidence below which a text block is left out.
    pub min_confidence: Score,
    /// Borders of the plaque with the name of the map.
    pub map_name_left_frac: Double,
    pub map_name_top_frac: Double,
    pub map_name_right_frac: Double,
    pub map_name_bottom_frac: Double,
}

impl TextOcrConfig {
    /// The calibration that is used where nothing else is configured.
    pub open spec fn is_default(self) -> bool {
        &&& self.chat_box_left_frac@ == double::thousandths_units(346)
        &&& self.chat_box_top_frac@ == double::thousandths_units(870)
        &&& self.chat_box_right_frac@ == double::thousandths_units(655)
        &&& self.chat_box_bottom_frac@ == double::thousandths_units(989)
        &&& self.max_edit_distance == 1
        &&& self.min_confidence.bits == HALF_BITS
        &&& self.map_name_left_frac@ == double::thousandths_units(760)
        &&& self.map_name_top_frac@ == double::thousandths_units(20)
        &&& self.map_name_right_frac@ == double::thousandths_units(990)
        &&& self.map_name_bottom_frac@ == double::thousandths_units(85)
    }
}

impl Default for TextOcrConfig {
    fn default() -> (r: TextOcrConfig)
        ensures
            r.is_default(),
    {
        TextOcrConfig {
            chat_box_left_frac: Double::thousandths(346),
            chat_box_top_frac: Double::thousandths(870),
            chat_box_right_frac: Double::thousandths(655),
            chat_box_bottom_frac: Double::thousandths(989),
            max_edit_distance: 1,
            min_confidence: Score { bits: HALF_BITS },
            map_name_left_frac: Double::thousandths(760),
            map_name_top_frac: Double::thousandths(20),
            map_name_right_frac: Double::thousandths(990),
            map_name_bottom_frac: Double::thousandths(85),
        }
    }
}

/// A block of text as it was read, in the coordinates of the frame.
#[derive(Debug, Clone)]
pub struct RawTextBlock {
    pub text: String,
    pub confidence: Score,
    pub x: i32,
    pub y: i32,
    pub w: i32,
    pub h: i32,
}

impl RawTextBlock {
    /// The block is trusted and holds Chinese text.
    pub open spec fn is_usable(self, min_confidence: Score) -> bool {
        !self.confidence.below(min_confidence) && self.cleaned().len() > 0
    }

    /// The Chinese characters of the block.
    pub open spec fn cleaned(self) -> Seq<char> {
        text::chinese_only(self.text@)
    }

    /// The place of the block, with its area.
    pub open spec fn text_box(self) -> TextBox {
        TextBox { x: self.x, y: self.y, w: self.w, h: self.h, area: (self.w * self.h) as i32 }
    }
}

/// The chat box of a frame.
pub fn chat_rect(frame_w: i32, frame_h: i32, cfg: &TextOcrConfig) -> (r: Rect)
    ensures
        geometry::is_region(
            r,
            frame_w as int,
            frame_h as int,
            cfg.chat_box_left_frac@,
            cfg.chat_box_top_frac@,
            cfg.chat_box_right_frac@,
            cfg.chat_box_bottom_frac@,
        ),
{
    geometry::region(
        frame_w,
        frame_h,
        &cfg.chat_box_left_frac,
        &cfg.chat_box_top_frac,
        &cfg.chat_box_right_frac,
        &cfg.chat_box_bottom_frac,
    )
}

/// Why an image cannot be read.
#[derive(Clone, Copy, Debug, PartialEq, Eq, Structural)]
pub enum ImageError {
    /// There are fewer bytes than the pixels need.
    TooShort,
    /// A row is too long to count its bytes.
    TooWide,
}

/// Bytes that an image needs.
pub open spec fn needed_bytes(mat: BgrMat) -> int {
    3 * (mat.cols * mat.rows)
}

/// Byte `i` of an image with red first, from one with blue first.
pub open spec fn rgb_byte(bgr: Seq<u8>, i: int) -> u8 {
    bgr[3 * (i / 3) + 2 - i % 3]
}

/// The image with red first, as the recogniser takes it.
pub fn mat_bgr_to_dynamic_image(mat: &BgrMat) -> (r: Result<RgbImage, ImageError>)
    requires
        mat.cols >= 0,
        mat.rows >= 0,
    ensures
        match r {
            Ok(img) => {
                &&& needed_bytes(*mat) <= mat.data@.len()
                &&& 3 * mat.cols <= usize::MAX
                &&& img.width == mat.cols && img.height == mat.rows
                &&& img.pixels@ == Seq::new(
                    needed_bytes(*mat) as nat,
                    |i: int| rgb_byte(mat.data@, i),
                )
            },
            Err(ImageError::TooShort) => needed_bytes(*mat) > mat.data@.len(),
            Err(ImageError::TooWide) => needed_bytes(*mat) <= mat.data@.len() && 3 * mat.cols
                > usize::MAX,
        },
{
    let length: usize = mat.data.len();
    let width: u32 = mat.cols as u32;
    let height: u32 = mat.rows as u32;
    assert(0 <= width * height <= 2147483647 * 2147483647) by (nonlinear_arith)
        requires
            width <= 2147483647,
            height <= 2147483647,
    ;
    let needed: u128 = 3 * (width as u128 * height as u128);
    if (length as u128) < needed {
        return Err(ImageError::TooShort);
    }
    let total: usize = (width as u64 * height as u64) as usize;
    let mut pixels: Vec<u8> = Vec::new();
    let mut k: usize = 0;
    while k < total
        invariant
            k <= total,
            length == mat.data@.len(),
            3 * total <= length,
            pixels@.len() == 3 * k,
            forall|i: int| 0 <= i < 3 * k ==> pixels@[i] == rgb_byte(mat.data@, i),
        decreases total - k,
    {
        pixels.push(mat.data[3 * k + 2]);
        pixels.push(mat.data[3 * k + 1]);
        pixels.push(mat.data[3 * k]);
        assert(3 * k / 3 == k && (3 * k + 1) / 3 == k && (3 * k + 2) / 3 == k);
        k = k + 1;
    }
    assert(pixels@ =~= Seq::new(needed_bytes(*mat) as nat, |i: int| rgb_byte(mat.data@, i)));
    match util::rgb_image(width, height, pixels) {
        Some(img) => Ok(img),
        None => Err(ImageError::TooWide),
    }
}

/// A screenshot that is turned to blue first and back to red first shows the colours of
/// the screenshot.
pub proof fn law_colours_survive_both_orders(raw: Seq<u8>, pixels: nat, i: int)
    requires
        4 * pixels <= raw.len(),
        0 <= i < 3 * pixels,
    ensures
        rgb_byte(
            Seq::new(3 * pixels, |k: int| monster_detector::bgr_byte(raw, k)),
            i,
        ) == util::without_alpha(raw)[i],
{
    let turned = 3 * (i / 3) + 2 - i % 3;
    assert(turned / 3 == i / 3 && turned % 3 == 2 - i % 3);
}

/// Column `x` of row `y` lies in the rectangle.
pub open spec fn is_inside(r: Rect, x: int, y: int) -> bool {
    r.x <= x < r.x + r.w && r.y <= y < r.y + r.h
}

/// Byte `i` of an image with `cols` columns once the rectangle is painted black.
pub open spec fn painted_byte(data: Seq<u8>, cols: int, r: Rect, i: int) -> u8 {
    let pixel = i / 3;
    if is_inside(r, pixel % cols, pixel / cols) {
        0
    } else {
        data[i]
    }
}

/// The image with a rectangle painted black; the image itself stays as it is.
pub fn painted_over(mat: &BgrMat, r: &Rect) -> (painted: BgrMat)
    requires
        mat.cols >= 0,
        mat.rows >= 0,
        mat.data@.len() == needed_bytes(*mat),
    ensures
        painted.cols == mat.cols,
        painted.rows == mat.rows,
        painted.data@ == Seq::new(
            mat.data@.len(),
            |i: int| painted_byte(mat.data@, mat.cols as int, *r, i),
        ),
{
    let length: usize = mat.data.len();
    let cols: i64 = mat.cols as i64;
    let right: i64 = r.x as i64 + r.w as i64;
    let bottom: i64 = r.y as i64 + r.h as i64;
    let mut data: Vec<u8> = Vec::new();
    let mut k: usize = 0;
    let mut x: i64 = 0;
    let mut y: i64 = 0;
    let ghost total: int = mat.cols * mat.rows;
    while k < length
        invariant
            length == mat.data@.len(),
            cols == mat.cols,
            cols >= 0,
            mat.rows >= 0,
            total == mat.cols * mat.rows,
            length == 3 * total,
            right == r.x + r.w,
            bottom == r.y + r.h,
            k <= length,
            k % 3 == 0,
            cols > 0 ==> 0 <= x < cols,
            0 <= y <= mat.rows,
            k / 3 == y * cols + x,
            data@.len() == k,
            forall|i: int| 0 <= i < k ==> data@[i] == painted_byte(mat.data@, cols as int, *r, i),
        decreases length - k,
    {
        proof {
            let pixel = (k / 3) as int;
            assert(pixel < total);
            assert(cols > 0 && y < mat.rows) by (nonlinear_arith)
                requires
                    pixel < cols * mat.rows,
                    pixel == y * cols + x,
                    cols >= 0,
                    mat.rows >= 0,
                    cols > 0 ==> 0 <= x < cols,
                    pixel >= 0,
            ;
            vstd::arithmetic::div_mod::lemma_fundamental_div_mod_converse(
                pixel,
                cols as int,
                y as int,
                x as int,
            );
            assert(k + 1 < length && k + 2 < length);
            assert((k + 1) / 3 == k / 3 && (k + 2) / 3 == k / 3);
        }
        if r.x as i64 <= x && x < right && r.y as i64 <= y && y < bottom {
            data.push(0);
            data.push(0);
            data.push(0);
        } else {
            data.push(mat.data[k]);
            data.push(mat.data[k + 1]);
            data.push(mat.data[k + 2]);
        }
        proof {
            assert((k + 3) / 3 == k / 3 + 1);
            assert((y + 1) * cols == y * cols + cols) by (nonlinear_arith);
        }
        k = k + 3;
        x = x + 1;
        if x == cols {
            x = 0;
            y = y + 1;
        }
    }
    BgrMat { cols: mat.cols, rows: mat.rows, data }
}

/// The pixels of a frame, red first, with the chat box painted black.
pub open spec fn prepared_pixels(frame: BgrMat, chat: Rect) -> Seq<u8> {
    Seq::new(
        frame.data@.len(),
        |i: int| painted_byte(frame.data@, frame.cols as int, chat, 3 * (i / 3) + 2 - i % 3),
    )
}

/// The image of a frame that is handed to the recogniser: the chat box is painted black,
/// red comes first.
pub fn prepare_frame(frame: &BgrMat, cfg: &TextOcrConfig) -> (r: Result<RgbImage, ImageError>)
    requires
        frame.cols >= 0,
        frame.rows >= 0,
        frame.data@.len() == needed_bytes(*frame),
    ensures
        match r {
            Ok(img) => {
                &&& 3 * frame.cols <= usize::MAX
                &&& img.width == frame.cols && img.height == frame.rows
                &&& exists|chat: Rect| #[trigger]
                    geometry::is_region(
                        chat,
                        frame.cols as int,
                        frame.rows as int,
                        cfg.chat_box_left_frac@,
                        cfg.chat_box_top_frac@,
                        cfg.chat_box_right_frac@,
                        cfg.chat_box_bottom_frac@,
                    ) && img.pixels@ == prepared_pixels(*frame, chat)
            },
            Err(e) => e == ImageError::TooWide && 3 * frame.cols > usize::MAX,
        },
{
    let chat: Rect = chat_rect(frame.cols, frame.rows, cfg);
    let masked: BgrMat = painted_over(frame, &chat);
    match mat_bgr_to_dynamic_image(&masked) {
        Ok(img) => {
            assert(img.pixels@ =~= prepared_pixels(*frame, chat));
            Ok(img)
        },
        Err(e) => Err(e),
    }
}

/// The wanted names in a text; names of one or two characters must be exact.
pub fn find_whitelist_matches(text: &str, names: &Whitelist, max_edit_distance: usize) -> (found:
    Vec<String>)
    ensures
        whitelist::texts(found@) == whitelist::names_found(
            text@,
            names@,
            max_edit_distance as nat,
            true,
        ),
        whitelist::texts(found@).no_duplicates(),
{
    whitelist::find_names(text, names, max_edit_distance, true)
}

/// The middle of the block lies on the plaque, borders included.
pub open spec fn is_on_plaque(
    b: RawTextBlock,
    frame_w: int,
    frame_h: int,
    cfg: TextOcrConfig,
) -> bool {
    let cx = b.x + geometry::half(b.w as int);
    let cy = b.y + geometry::half(b.h as int);
    &&& double::scaled(frame_w, cfg.map_name_left_frac@ as int) <= cx
    &&& cx <= double::scaled(frame_w, cfg.map_name_right_frac@ as int)
    &&& double::scaled(frame_h, cfg.map_name_top_frac@ as int) <= cy
    &&& cy <= double::scaled(frame_h, cfg.map_name_bottom_frac@ as int)
}

/// The block can give the name of the map.
pub open spec fn names_the_map(
    b: RawTextBlock,
    frame_w: int,
    frame_h: int,
    cfg: TextOcrConfig,
) -> bool {
    b.is_usable(cfg.min_confidence) && is_on_plaque(b, frame_w, frame_h, cfg)
}

/// The name of the map and its confidence: the most confident of the blocks that
/// can give it, and of equally confident ones the first.
pub open spec fn map_name(
    blocks: Seq<RawTextBlock>,
    frame_w: int,
    frame_h: int,
    cfg: TextOcrConfig,
) -> Option<(Seq<char>, Score)>
    decreases blocks.len(),
{
    if blocks.len() == 0 {
        None
    } else {
        let best = map_name(blocks.drop_last(), frame_w, frame_h, cfg);
        let b = blocks.last();
        if names_the_map(b, frame_w, frame_h, cfg) && (best matches Some(known) ==> known.1.below(
            b.confidence,
        )) {
            Some((b.cleaned(), b.confidence))
        } else {
            best
        }
    }
}

/// The view of a name with its confidence.
pub open spec fn named_score(r: Option<(String, Score)>) -> Option<(Seq<char>, Score)> {
    match r {
        Some(p) => Some((p.0@, p.1)),
        None => None,
    }
}

/// The name on the map plaque.
pub fn match_map_name(
    blocks: &[RawTextBlock],
    frame_w: i32,
    frame_h: i32,
    cfg: &TextOcrConfig,
) -> (r: Option<(String, Score)>)
    ensures
        named_score(r) == map_name(blocks@, frame_w as int, frame_h as int, *cfg),
{
    let x1: i32 = cfg.map_name_left_frac.of(frame_w as i64);
    let y1: i32 = cfg.map_name_top_frac.of(frame_h as i64);
    let x2: i32 = cfg.map_name_right_frac.of(frame_w as i64);
    let y2: i32 = cfg.map_name_bottom_frac.of(frame_h as i64);
    let mut best: Option<(String, Score)> = None;
    let mut i: usize = 0;
    assert(blocks@.take(0) =~= Seq::<RawTextBlock>::empty());
    while i < blocks.len()
        invariant
            i <= blocks@.len(),
            x1 == double::scaled(frame_w as int, cfg.map_name_left_frac@ as int),
            y1 == double::scaled(frame_h as int, cfg.map_name_top_frac@ as int),
            x2 == double::scaled(frame_w as int, cfg.map_name_right_frac@ as int),
            y2 == double::scaled(frame_h as int, cfg.map_name_bottom_frac@ as int),
            named_score(best) == map_name(
                blocks@.take(i as int),
                frame_w as int,
                frame_h as int,
                *cfg,
            ),
        decreases blocks.len() - i,
    {
        let b: &RawTextBlock = &blocks[i];
        assert(blocks@.take(i + 1).drop_last() =~= blocks@.take(i as int));
        assert(blocks@.take(i + 1).last() == *b);
        i = i + 1;
        if b.confidence.is_below(&cfg.min_confidence) {
            continue;
        }
        let cx: i64 = b.x as i64 + geometry::halved(b.w) as i64;
        let cy: i64 = b.y as i64 + geometry::halved(b.h) as i64;
        if cx < x1 as i64 || cx > x2 as i64 || cy < y1 as i64 || cy > y2 as i64 {
            continue;
        }
        let cleaned: String = text::filter_chinese_only(b.text.as_str());
        if cleaned.as_str().is_empty() {
            continue;
        }
        let better: bool = match &best {
            Some(known) => known.1.is_below(&b.confidence),
            None => true,
        };
        if better {
            best = Some((cleaned, b.confidence));
        }
    }
    assert(blocks@.take(blocks@.len() as int) =~= blocks@);
    best
}

/// The map name comes from a block that can give it, none of those is more
/// confident, and it is only missing when there is no such block.
pub proof fn law_map_name_is_the_most_confident(
    blocks: Seq<RawTextBlock>,
    frame_w: int,
    frame_h: int,
    cfg: TextOcrConfig,
)
    ensures
        match map_name(blocks, frame_w, frame_h, cfg) {
            Some(best) => {
                &&& exists|i: int|
                    0 <= i < blocks.len() && names_the_map(
                        #[trigger] blocks[i],
                        frame_w,
                        frame_h,
                        cfg,
                    ) && blocks[i].cleaned() == best.0 && blocks[i].confidence == best.1
                &&& forall|i: int|
                    0 <= i < blocks.len() && names_the_map(
                        #[trigger] blocks[i],
                        frame_w,
                        frame_h,
                        cfg,
                    ) ==> !best.1.below(blocks[i].confidence)
            },
            None => forall|i: int|
                0 <= i < blocks.len() ==> !names_the_map(
                    #[trigger] blocks[i],
                    frame_w,
                    frame_h,
                    cfg,
                ),
        },
    decreases blocks.len(),
{
    if blocks.len() > 0 {
        let shorter = blocks.drop_last();
        law_map_name_is_the_most_confident(shorter, frame_w, frame_h, cfg);
        let last = blocks.len() - 1;
        assert forall|i: int| 0 <= i < shorter.len() implies #[trigger] shorter[i]
            == blocks[i] by {}
        if let Some(best) = map_name(blocks, frame_w, frame_h, cfg) {
            if names_the_map(blocks[last], frame_w, frame_h, cfg) && best == (
                blocks[last].cleaned(),
                blocks[last].confidence,
            ) {
                assert(names_the_map(blocks[last], frame_w, frame_h, cfg));
            } else {
                let i = choose|i: int|
                    0 <= i < shorter.len() && names_the_map(
                        #[trigger] shorter[i],
                        frame_w,
                        frame_h,
                        cfg,
                    ) && shorter[i].cleaned() == best.0 && shorter[i].confidence == best.1;
                assert(blocks[i] == shorter[i]);
            }
            assert forall|i: int|
                0 <= i < blocks.len() && names_the_map(
                    #[trigger] blocks[i],
                    frame_w,
                    frame_h,
                    cfg,
                ) implies !best.1.below(blocks[i].confidence) by {
                if i < last {
                    assert(shorter[i] == blocks[i]);
                }
            }
        } else {
            assert forall|i: int| 0 <= i < blocks.len() implies !names_the_map(
                #[trigger] blocks[i],
                frame_w,
                frame_h,
                cfg,
            ) by {
                if i < last {
                    assert(shorter[i] == blocks[i]);
                }
            }
        }
    }
}

/// The wanted names that a block holds.
pub open spec fn block_names(b: RawTextBlock, names: Seq<Seq<char>>, cfg: TextOcrConfig) -> Seq<
    Seq<char>,
> {
    if b.is_usable(cfg.min_confidence) {
        whitelist::names_found(b.cleaned(), names, cfg.max_edit_distance as nat, true)
    } else {
        Seq::empty()
    }
}

/// A wanted monster that was read: its name, its place, the confidence.
pub type MonsterReading = (Seq<char>, TextBox, Score);

pub open spec fn monster_readings(found: Seq<(String, TextBox, Score)>) -> Seq<MonsterReading> {
    found.map_values(|m: (String, TextBox, Score)| (m.0@, m.1, m.2))
}

/// The wanted monsters in the blocks, before near copies are dropped.
pub open spec fn monsters_read(
    blocks: Seq<RawTextBlock>,
    names: Seq<Seq<char>>,
    cfg: TextOcrConfig,
) -> Seq<MonsterReading>
    decreases blocks.len(),
{
    if blocks.len() == 0 {
        Seq::empty()
    } else {
        let b = blocks.last();
        monsters_read(blocks.drop_last(), names, cfg) + block_names(b, names, cfg).map_values(
            |name: Seq<char>| (name, b.text_box(), b.confidence),
        )
    }
}

/// Two readings of one monster: the same name in practically the same place.
pub open spec fn is_copy(a: MonsterReading, b: MonsterReading) -> bool {
    a.0 == b.0 && geometry::overlap_significantly(a.1.place(), b.1.place())
}

/// Place of the first reading that `m` copies, and the length without one.
pub open spec fn first_copy(kept: Seq<MonsterReading>, m: MonsterReading) -> nat
    decreases kept.len(),
{
    if kept.len() == 0 {
        0
    } else if is_copy(kept.first(), m) {
        0
    } else {
        1 + first_copy(kept.drop_first(), m)
    }
}

/// Some reading that is kept is copied by `m` and not less confident.
pub open spec fn is_outdone(kept: Seq<MonsterReading>, m: MonsterReading) -> bool {
    exists|i: int|
        0 <= i < kept.len() && is_copy(#[trigger] kept[i], m) && !kept[i].2.below(m.2)
}

/// The readings that `m` does not copy.
pub open spec fn without_copies_of(kept: Seq<MonsterReading>, m: MonsterReading) -> Seq<
    MonsterReading,
> {
    kept.filter(|k: MonsterReading| !is_copy(k, m))
}

/// Takes a reading up. It is dropped where it copies one that is not less confident.
/// Otherwise it replaces all that it copies, in the place of the first of them; one that
/// copies nothing comes last.
pub open spec fn take_up(kept: Seq<MonsterReading>, m: MonsterReading) -> Seq<MonsterReading> {
    if is_outdone(kept, m) {
        kept
    } else {
        without_copies_of(kept, m).insert(first_copy(kept, m) as int, m)
    }
}

/// The readings with their near copies dropped.
pub open spec fn without_copies(read: Seq<MonsterReading>) -> Seq<MonsterReading>
    decreases read.len(),
{
    if read.len() == 0 {
        Seq::empty()
    } else {
        take_up(without_copies(read.drop_last()), read.last())
    }
}

/// The areas of the usable blocks can be told.
pub open spec fn areas_fit(blocks: Seq<RawTextBlock>, cfg: TextOcrConfig) -> bool {
    forall|i: int|
        0 <= i < blocks.len() && (#[trigger] blocks[i]).is_usable(cfg.min_confidence)
            ==> geometry::fits_i32(blocks[i].w * blocks[i].h)
}

/// Whether the areas of the usable blocks can be told.
pub fn areas_can_be_told(blocks: &[RawTextBlock], cfg: &TextOcrConfig) -> (r: bool)
    ensures
        r == areas_fit(blocks@, *cfg),
{
    let mut i: usize = 0;
    while i < blocks.len()
        invariant
            i <= blocks@.len(),
            areas_fit(blocks@.take(i as int), *cfg),
        decreases blocks.len() - i,
    {
        let b: &RawTextBlock = &blocks[i];
        assert(*b == blocks@[i as int]);
        if !b.confidence.is_below(&cfg.min_confidence) && !text::filter_chinese_only(
            b.text.as_str(),
        ).as_str().is_empty() && b.w.checked_mul(b.h).is_none() {
            assert(!areas_fit(blocks@, *cfg));
            return false;
        }
        assert forall|j: int|
            0 <= j < i + 1 && (#[trigger] blocks@.take(i + 1)[j]).is_usable(
                cfg.min_confidence,
            ) implies geometry::fits_i32(
            blocks@.take(i + 1)[j].w * blocks@.take(i + 1)[j].h,
        ) by {
            if j < i {
                assert(blocks@.take(i + 1)[j] == blocks@.take(i as int)[j]);
            }
        }
        i = i + 1;
    }
    assert(blocks@.take(blocks@.len() as int) =~= blocks@);
    true
}

proof fn lemma_first_copy(kept: Seq<MonsterReading>, m: MonsterReading, i: nat)
    requires
        i <= kept.len(),
        forall|j: int| 0 <= j < i ==> !is_copy(#[trigger] kept[j], m),
        i < kept.len() ==> is_copy(kept[i as int], m),
    ensures
        first_copy(kept, m) == i,
    decreases kept.len(),
{
    if kept.len() > 0 && i > 0 {
        assert(!is_copy(kept[0], m));
        let rest = kept.drop_first();
        assert forall|j: int| 0 <= j < i - 1 implies !is_copy(#[trigger] rest[j], m) by {
            assert(rest[j] == kept[j + 1]);
        }
        lemma_first_copy(rest, m, (i - 1) as nat);
    }
}

/// What one reading more leaves over.
proof fn lemma_left_over(kept: Seq<MonsterReading>, m: MonsterReading, n: int)
    requires
        0 <= n < kept.len(),
    ensures
        without_copies_of(kept.take(n + 1), m) == (if is_copy(kept[n], m) {
            without_copies_of(kept.take(n), m)
        } else {
            without_copies_of(kept.take(n), m).push(kept[n])
        }),
{
    reveal(Seq::filter);
    assert(kept.take(n + 1).drop_last() =~= kept.take(n));
    assert(kept.take(n + 1).last() == kept[n]);
}

/// Nothing is dropped before the first copy.
proof fn lemma_first_copy_is_in_range(kept: Seq<MonsterReading>, m: MonsterReading, n: int)
    requires
        0 <= n <= kept.len(),
        n <= first_copy(kept, m),
    ensures
        without_copies_of(kept.take(n), m) == kept.take(n),
        first_copy(kept, m) <= kept.len(),
    decreases n,
{
    lemma_none_before_the_first_copy(kept, m);
    if n > 0 {
        lemma_first_copy_is_in_range(kept, m, n - 1);
        lemma_left_over(kept, m, n - 1);
        assert(!is_copy(kept[n - 1], m));
        assert(kept.take(n - 1).push(kept[n - 1]) =~= kept.take(n));
    } else {
        reveal(Seq::filter);
        assert(kept.take(0) =~= Seq::<MonsterReading>::empty());
    }
}

/// What is left grows with the readings that are looked at.
proof fn lemma_left_over_grows(kept: Seq<MonsterReading>, m: MonsterReading, n: int, all: int)
    requires
        0 <= n <= all <= kept.len(),
    ensures
        without_copies_of(kept.take(n), m).len() <= without_copies_of(kept.take(all), m).len(),
        without_copies_of(kept.take(all), m).len() <= all,
    decreases all,
{
    if n < all {
        lemma_left_over_grows(kept, m, n, all - 1);
        lemma_left_over(kept, m, all - 1);
    } else if all > 0 {
        lemma_left_over_grows(kept, m, all - 1, all - 1);
        lemma_left_over(kept, m, all - 1);
    } else {
        reveal(Seq::filter);
        assert(kept.take(0) =~= Seq::<MonsterReading>::empty());
    }
}

/// The new reading has a place among what is left.
proof fn lemma_place_is_in_range(kept: Seq<MonsterReading>, m: MonsterReading)
    ensures
        first_copy(kept, m) <= without_copies_of(kept, m).len(),
{
    lemma_first_copy_is_in_range(kept, m, 0);
    let first = first_copy(kept, m) as int;
    lemma_first_copy_is_in_range(kept, m, first);
    lemma_left_over_grows(kept, m, first, kept.len() as int);
    assert(kept.take(kept.len() as int) =~= kept);
}

/// Takes one reading up among those that are kept.
fn keep_reading(kept: &mut Vec<(String, TextBox, Score)>, name: String, place: TextBox, score: Score)
    ensures
        monster_readings(final(kept)@) == take_up(
            monster_readings(old(kept)@),
            (name@, place, score),
        ),
{
    let ghost before = monster_readings(kept@);
    let ghost m = (name@, place, score);
    let total: usize = kept.len();
    let mut copies: Vec<bool> = Vec::new();
    let mut first: usize = total;
    let mut i: usize = 0;
    while i < total
        invariant
            i <= total,
            total == kept@.len(),
            before == monster_readings(kept@),
            kept@ == old(kept)@,
            m == (name@, place, score),
            copies@.len() == i,
            forall|j: int| 0 <= j < i ==> #[trigger] copies@[j] == is_copy(before[j], m),
            forall|j: int|
                0 <= j < i && is_copy(#[trigger] before[j], m) ==> before[j].2.below(m.2),
            first <= total,
            first < i || first == total,
            forall|j: int| 0 <= j < i && j < first ==> !is_copy(#[trigger] before[j], m),
            first < total ==> is_copy(before[first as int], m),
        decreases total - i,
    {
        assert(before[i as int] == (kept@[i as int].0@, kept@[i as int].1, kept@[i as int].2));
        let copied: bool = text::same_text(kept[i].0.as_str(), name.as_str())
            && geometry::rects_overlap_significantly(&kept[i].1.rect(), &place.rect());
        assert(copied == is_copy(before[i as int], m));
        if copied {
            if !kept[i].2.is_below(&score) {
                assert(is_outdone(before, m));
                return;
            }
            if first == total {
                first = i;
            }
        }
        copies.push(copied);
        i = i + 1;
    }
    proof {
        lemma_first_copy(before, m, first as nat);
        lemma_place_is_in_range(before, m);
    }
    drop_copies(kept, &copies, Ghost(m));
    assert(monster_readings(kept@) == without_copies_of(before, m));
    assert(first <= kept@.len());
    let ghost left = kept@;
    kept.insert(first, (name, place, score));
    assert(monster_readings(kept@) =~= monster_readings(left).insert(first as int, m));
}

/// Removes the readings that are marked.
fn drop_copies(
    kept: &mut Vec<(String, TextBox, Score)>,
    copies: &Vec<bool>,
    Ghost(m): Ghost<MonsterReading>,
)
    requires
        copies@.len() == old(kept)@.len(),
        forall|j: int|
            0 <= j < copies@.len() ==> #[trigger] copies@[j] == is_copy(
                monster_readings(old(kept)@)[j],
                m,
            ),
    ensures
        monster_readings(final(kept)@) == without_copies_of(monster_readings(old(kept)@), m),
{
    let ghost before = monster_readings(kept@);
    let mut at: usize = 0;
    let mut i: usize = 0;
    proof {
        reveal(Seq::filter);
        assert(before.take(0) =~= Seq::<MonsterReading>::empty());
        assert(before.skip(0) =~= before);
        assert(monster_readings(kept@) =~= without_copies_of(before.take(0), m) + before.skip(0));
    }
    while i < copies.len()
        invariant
            i <= copies@.len(),
            copies@.len() == before.len(),
            forall|j: int| 0 <= j < copies@.len() ==> #[trigger] copies@[j] == is_copy(before[j], m),
            at == without_copies_of(before.take(i as int), m).len(),
            at <= i,
            monster_readings(kept@) == without_copies_of(before.take(i as int), m) + before.skip(
                i as int,
            ),
        decreases copies.len() - i,
    {
        let ghost had = kept@;
        let ghost head = without_copies_of(before.take(i as int), m);
        proof {
            lemma_left_over(before, m, i as int);
            assert(before.skip(i as int).drop_first() =~= before.skip(i + 1));
            assert(monster_readings(had).len() == had.len());
            assert(before.skip(i as int)[0] == before[i as int]);
        }
        if copies[i] {
            let _dropped: (String, TextBox, Score) = kept.remove(at);
            assert(monster_readings(kept@) =~= monster_readings(had).remove(at as int));
            assert(monster_readings(kept@) =~= head + before.skip(i + 1));
        } else {
            at = at + 1;
            assert(head + before.skip(i as int) =~= head.push(before[i as int]) + before.skip(
                i + 1,
            ));
        }
        i = i + 1;
    }
    assert(before.take(before.len() as int) =~= before);
    assert(before.skip(before.len() as int) =~= Seq::<MonsterReading>::empty());
    assert(monster_readings(kept@) =~= without_copies_of(before, m));
}

proof fn lemma_without_copies_step(read: Seq<MonsterReading>, m: MonsterReading)
    ensures
        without_copies(read.push(m)) == take_up(without_copies(read), m),
{
    assert(read.push(m).drop_last() =~= read);
}

/// Takes one reading up for each name. `read` is what was taken up before.
fn keep_readings(
    kept: &mut Vec<(String, TextBox, Score)>,
    names: &Vec<String>,
    place: TextBox,
    score: Score,
    Ghost(read): Ghost<Seq<MonsterReading>>,
)
    requires
        monster_readings(old(kept)@) == without_copies(read),
    ensures
        monster_readings(final(kept)@) == without_copies(
            read + whitelist::texts(names@).map_values(|name: Seq<char>| (name, place, score)),
        ),
{
    let ghost more = whitelist::texts(names@).map_values(
        |name: Seq<char>| (name, place, score),
    );
    let mut k: usize = 0;
    assert(read + more.take(0) =~= read);
    while k < names.len()
        invariant
            k <= names@.len(),
            more == whitelist::texts(names@).map_values(
                |name: Seq<char>| (name, place, score),
            ),
            monster_readings(kept@) == without_copies(read + more.take(k as int)),
        decreases names.len() - k,
    {
        proof {
            let m = more[k as int];
            assert(m == (names@[k as int]@, place, score));
            assert(read + more.take(k + 1) =~= (read + more.take(k as int)).push(m));
            lemma_without_copies_step(read + more.take(k as int), m);
        }
        keep_reading(kept, names[k].clone(), place, score);
        k = k + 1;
    }
    assert(more.take(more.len() as int) =~= more);
}

/// The wanted monsters in the blocks, each with its place, near copies dropped.
pub fn match_monsters(blocks: &[RawTextBlock], names: &Whitelist, cfg: &TextOcrConfig) -> (found:
    Vec<(String, TextBox, Score)>)
    requires
        areas_fit(blocks@, *cfg),
    ensures
        monster_readings(found@) == without_copies(monsters_read(blocks@, names@, *cfg)),
        has_no_copies(monster_readings(found@)),
{
    let mut kept: Vec<(String, TextBox, Score)> = Vec::new();
    let mut i: usize = 0;
    assert(blocks@.take(0) =~= Seq::<RawTextBlock>::empty());
    assert(monster_readings(kept@) =~= Seq::<MonsterReading>::empty());
    while i < blocks.len()
        invariant
            i <= blocks@.len(),
            areas_fit(blocks@, *cfg),
            monster_readings(kept@) == without_copies(
                monsters_read(blocks@.take(i as int), names@, *cfg),
            ),
        decreases blocks.len() - i,
    {
        let b: &RawTextBlock = &blocks[i];
        let ghost read = monsters_read(blocks@.take(i as int), names@, *cfg);
        let ghost all = monsters_read(blocks@.take(i + 1), names@, *cfg);
        assert(blocks@.take(i + 1).drop_last() =~= blocks@.take(i as int));
        assert(blocks@.take(i + 1).last() == *b);
        assert(*b == blocks@[i as int]);
        i = i + 1;
        if b.confidence.is_below(&cfg.min_confidence) {
            assert(all =~= read);
            continue;
        }
        let cleaned: String = text::filter_chinese_only(b.text.as_str());
        if cleaned.as_str().is_empty() {
            assert(all =~= read);
            continue;
        }
        let place: TextBox = TextBox { x: b.x, y: b.y, w: b.w, h: b.h, area: b.w * b.h };
        let found: Vec<String> = find_whitelist_matches(
            cleaned.as_str(),
            names,
            cfg.max_edit_distance,
        );
        assert(all == read + whitelist::texts(found@).map_values(
            |name: Seq<char>| (name, place, b.confidence),
        )) by {
            assert(whitelist::texts(found@).map_values(
                |name: Seq<char>| (name, place, b.confidence),
            ) =~= block_names(*b, names@, *cfg).map_values(
                |name: Seq<char>| (name, b.text_box(), b.confidence),
            ));
        }
        keep_readings(&mut kept, &found, place, b.confidence, Ghost(read));
    }
    assert(blocks@.take(blocks@.len() as int) =~= blocks@);
    proof {
        law_kept_monsters_are_no_copies(monsters_read(blocks@, names@, *cfg));
    }
    kept
}

/// What is left holds exactly the readings that are no copies, and no two copies where
/// there were none.
proof fn lemma_left_over_is_left(kept: Seq<MonsterReading>, m: MonsterReading, n: int)
    requires
        0 <= n <= kept.len(),
    ensures
        ({
            let left = without_copies_of(kept.take(n), m);
            &&& forall|i: int|
                0 <= i < left.len() ==> !is_copy(#[trigger] left[i], m) && kept.take(n).contains(
                    left[i],
                )
            &&& forall|i: int|
                0 <= i < n && !is_copy(#[trigger] kept[i], m) ==> left.contains(kept[i])
            &&& has_no_copies(kept) ==> has_no_copies(left)
        }),
    decreases n,
{
    let left = without_copies_of(kept.take(n), m);
    if n > 0 {
        lemma_left_over_is_left(kept, m, n - 1);
        lemma_left_over(kept, m, n - 1);
        let before = without_copies_of(kept.take(n - 1), m);
        let r = kept[n - 1];
        let fewer = kept.take(n - 1);
        assert forall|i: int| 0 <= i < left.len() implies !is_copy(#[trigger] left[i], m)
            && kept.take(n).contains(left[i]) by {
            if i < before.len() {
                assert(left[i] == before[i]);
                let k = choose|k: int| 0 <= k < fewer.len() && fewer[k] == before[i];
                assert(kept.take(n)[k] == left[i]);
            } else {
                assert(kept.take(n)[n - 1] == left[i]);
            }
        }
        assert forall|i: int| 0 <= i < n && !is_copy(#[trigger] kept[i], m) implies left.contains(
            kept[i],
        ) by {
            if i < n - 1 {
                assert(before.contains(kept[i]));
                let k = choose|k: int| 0 <= k < before.len() && before[k] == kept[i];
                assert(left[k] == kept[i]);
            } else {
                assert(left[before.len() as int] == r);
            }
        }
        if has_no_copies(kept) {
            assert forall|j: int, k: int|
                0 <= j < left.len() && 0 <= k < left.len() && j != k implies !#[trigger] is_copy(
                left[j],
                left[k],
            ) by {
                if j < before.len() && k < before.len() {
                    assert(!is_copy(before[j], before[k]));
                } else if j < before.len() {
                    let p = choose|p: int| 0 <= p < fewer.len() && fewer[p] == before[j];
                    assert(!is_copy(kept[p], kept[n - 1]));
                } else {
                    let p = choose|p: int| 0 <= p < fewer.len() && fewer[p] == before[k];
                    assert(!is_copy(kept[n - 1], kept[p]));
                }
            }
        }
    } else {
        reveal(Seq::filter);
        assert(kept.take(0) =~= Seq::<MonsterReading>::empty());
    }
}

/// Every reading that is kept after one was taken up is that one or was kept before.
proof fn lemma_taking_up_invents_nothing(kept: Seq<MonsterReading>, m: MonsterReading, i: int)
    requires
        0 <= i < take_up(kept, m).len(),
    ensures
        take_up(kept, m)[i] == m || kept.contains(take_up(kept, m)[i]),
{
    if !is_outdone(kept, m) {
        let left = without_copies_of(kept, m);
        let place = first_copy(kept, m) as int;
        assert(kept.take(kept.len() as int) =~= kept);
        lemma_left_over_is_left(kept, m, kept.len() as int);
        lemma_place_is_in_range(kept, m);
        if i < place {
            assert(take_up(kept, m)[i] == left[i]);
        } else if i > place {
            assert(take_up(kept, m)[i] == left[i - 1]);
        }
    }
}

/// A reading that was covered stays covered when another one is taken up.
proof fn lemma_taking_up_uncovers_nothing(
    kept: Seq<MonsterReading>,
    m: MonsterReading,
    r: MonsterReading,
)
    requires
        is_covered(kept, r),
    ensures
        is_covered(take_up(kept, m), r),
{
    let after = take_up(kept, m);
    let k = choose|k: int| 0 <= k < kept.len() && covers(#[trigger] kept[k], r);
    if is_outdone(kept, m) {
        assert(covers(after[k], r));
    } else {
        let left = without_copies_of(kept, m);
        let place = first_copy(kept, m) as int;
        assert(kept.take(kept.len() as int) =~= kept);
        lemma_left_over_is_left(kept, m, kept.len() as int);
        lemma_place_is_in_range(kept, m);
        if is_copy(kept[k], m) {
            assert(after[place] == m);
            assert(covers(after[place], r));
        } else {
            let p = choose|p: int| 0 <= p < left.len() && left[p] == kept[k];
            if p < place {
                assert(after[p] == left[p]);
                assert(covers(after[p], r));
            } else {
                assert(after[p + 1] == left[p]);
                assert(covers(after[p + 1], r));
            }
        }
    }
}

/// A reading that is taken up is covered.
proof fn lemma_taken_up_is_covered(kept: Seq<MonsterReading>, m: MonsterReading)
    ensures
        is_covered(take_up(kept, m), m),
{
    let after = take_up(kept, m);
    if is_outdone(kept, m) {
        let k = choose|k: int|
            0 <= k < kept.len() && is_copy(#[trigger] kept[k], m) && !kept[k].2.below(m.2);
        assert(covers(after[k], m));
    } else {
        lemma_place_is_in_range(kept, m);
        assert(covers(after[first_copy(kept, m) as int], m));
    }
}

/// Dropping near copies invents nothing and loses no monster: every reading that
/// is kept was read, and for every reading that was read one of the same name is
/// kept that is not less confident.
pub proof fn law_no_monster_is_lost(read: Seq<MonsterReading>)
    ensures
        forall|i: int|
            0 <= i < without_copies(read).len() ==> read.contains(
                #[trigger] without_copies(read)[i],
            ),
        forall|i: int|
            0 <= i < read.len() ==> is_covered(without_copies(read), #[trigger] read[i]),
    decreases read.len(),
{
    if read.len() > 0 {
        let shorter = read.drop_last();
        let m = read.last();
        law_no_monster_is_lost(shorter);
        let before = without_copies(shorter);
        let after = without_copies(read);
        assert forall|i: int| 0 <= i < after.len() implies read.contains(#[trigger] after[i]) by {
            lemma_taking_up_invents_nothing(before, m, i);
            if after[i] == m {
                assert(read[read.len() - 1] == m);
            } else {
                let p = choose|p: int| 0 <= p < before.len() && before[p] == after[i];
                assert(shorter.contains(before[p]));
                let k = choose|k: int| 0 <= k < shorter.len() && shorter[k] == before[p];
                assert(read[k] == after[i]);
            }
        }
        assert forall|i: int| 0 <= i < read.len() implies is_covered(after, #[trigger] read[i]) by {
            if i == read.len() - 1 {
                lemma_taken_up_is_covered(before, m);
            } else {
                assert(shorter[i] == read[i]);
                lemma_taking_up_uncovers_nothing(before, m, read[i]);
            }
        }
    }
}

/// No two of the readings are copies of each other.
pub open spec fn has_no_copies(kept: Seq<MonsterReading>) -> bool {
    forall|j: int, k: int|
        0 <= j < kept.len() && 0 <= k < kept.len() && j != k ==> !#[trigger] is_copy(
            kept[j],
            kept[k],
        )
}

/// No two of the readings that are kept are near copies.
pub proof fn law_kept_monsters_are_no_copies(read: Seq<MonsterReading>)
    ensures
        has_no_copies(without_copies(read)),
    decreases read.len(),
{
    if read.len() > 0 {
        let m = read.last();
        law_kept_monsters_are_no_copies(read.drop_last());
        let before = without_copies(read.drop_last());
        let after = without_copies(read);
        let left = without_copies_of(before, m);
        let place = first_copy(before, m) as int;
        assert(before.take(before.len() as int) =~= before);
        lemma_left_over_is_left(before, m, before.len() as int);
        lemma_place_is_in_range(before, m);
        if !is_outdone(before, m) {
            assert forall|j: int, k: int|
                0 <= j < after.len() && 0 <= k < after.len() && j != k implies !#[trigger] is_copy(
                after[j],
                after[k],
            ) by {
                lemma_copies_are_mutual(after[j], after[k]);
                let p = if j < place {
                    j
                } else {
                    j - 1
                };
                let q = if k < place {
                    k
                } else {
                    k - 1
                };
                if j != place {
                    assert(after[j] == left[p]);
                }
                if k != place {
                    assert(after[k] == left[q]);
                }
                if j != place && k != place {
                    assert(!is_copy(left[p], left[q]));
                }
            }
        }
    }
}

proof fn lemma_none_before_the_first_copy(kept: Seq<MonsterReading>, m: MonsterReading)
    ensures
        first_copy(kept, m) <= kept.len(),
        forall|j: int| 0 <= j < first_copy(kept, m) && j < kept.len() ==> !is_copy(
            #[trigger] kept[j],
            m,
        ),
    decreases kept.len(),
{
    if kept.len() > 0 && !is_copy(kept.first(), m) {
        let rest = kept.drop_first();
        lemma_none_before_the_first_copy(rest, m);
        assert forall|j: int| 0 <= j < first_copy(kept, m) && j < kept.len() implies !is_copy(
            #[trigger] kept[j],
            m,
        ) by {
            if j > 0 {
                assert(kept[j] == rest[j - 1]);
            }
        }
    }
}

proof fn lemma_copies_are_mutual(a: MonsterReading, b: MonsterReading)
    ensures
        is_copy(a, b) == is_copy(b, a),
{
    assert(geometry::shared_area(a.1.place(), b.1.place()) == geometry::shared_area(
        b.1.place(),
        a.1.place(),
    ));
}

/// `kept` has the name of `m` and is not less confident.
pub open spec fn covers(kept: MonsterReading, m: MonsterReading) -> bool {
    kept.0 == m.0 && !kept.2.below(m.2)
}

/// Some reading that is kept covers `m`.
pub open spec fn is_covered(kept: Seq<MonsterReading>, m: MonsterReading) -> bool {
    exists|k: int| 0 <= k < kept.len() && covers(#[trigger] kept[k], m)
}

/// Every monster that is read carries a wanted name and the confidence of a block
/// that was trusted.
pub proof fn law_monsters_read_are_wanted(
    blocks: Seq<RawTextBlock>,
    names: Seq<Seq<char>>,
    cfg: TextOcrConfig,
)
    requires
        names.no_duplicates(),
    ensures
        forall|i: int|
            0 <= i < monsters_read(blocks, names, cfg).len() ==> ({
                let m = #[trigger] monsters_read(blocks, names, cfg)[i];
                names.contains(m.0) && !m.2.below(cfg.min_confidence)
            }),
    decreases blocks.len(),
{
    if blocks.len() > 0 {
        let b = blocks.last();
        law_monsters_read_are_wanted(blocks.drop_last(), names, cfg);
        let before = monsters_read(blocks.drop_last(), names, cfg);
        let here = block_names(b, names, cfg);
        whitelist::law_found_names_are_wanted(
            b.cleaned(),
            names,
            cfg.max_edit_distance as nat,
            true,
        );
        assert forall|i: int| 0 <= i < monsters_read(blocks, names, cfg).len() implies ({
            let m = #[trigger] monsters_read(blocks, names, cfg)[i];
            names.contains(m.0) && !m.2.below(cfg.min_confidence)
        }) by {
            if i < before.len() {
                assert(monsters_read(blocks, names, cfg)[i] == before[i]);
            } else {
                assert(here.contains(here[i - before.len()]));
            }
        }
    }
}

/// A wanted item that was read: its name, the text as read, the confidence.
pub type ItemReading = (Seq<char>, Seq<char>, Score);

pub open spec fn item_readings(found: Seq<(String, String, Score)>) -> Seq<ItemReading> {
    found.map_values(|m: (String, String, Score)| (m.0@, m.1@, m.2))
}

/// The wanted items in the blocks.
pub open spec fn items_read(
    blocks: Seq<RawTextBlock>,
    names: Seq<Seq<char>>,
    cfg: TextOcrConfig,
) -> Seq<ItemReading>
    decreases blocks.len(),
{
    if blocks.len() == 0 {
        Seq::empty()
    } else {
        let b = blocks.last();
        items_read(blocks.drop_last(), names, cfg) + block_names(b, names, cfg).map_values(
            |name: Seq<char>| (name, b.text@, b.confidence),
        )
    }
}

/// Every item that is read carries a wanted name and the confidence of a block that was
/// trusted.
pub proof fn law_items_read_are_wanted(
    blocks: Seq<RawTextBlock>,
    names: Seq<Seq<char>>,
    cfg: TextOcrConfig,
)
    requires
        names.no_duplicates(),
    ensures
        forall|i: int|
            0 <= i < items_read(blocks, names, cfg).len() ==> ({
                let m = #[trigger] items_read(blocks, names, cfg)[i];
                names.contains(m.0) && !m.2.below(cfg.min_confidence)
            }),
    decreases blocks.len(),
{
    if blocks.len() > 0 {
        let b = blocks.last();
        law_items_read_are_wanted(blocks.drop_last(), names, cfg);
        let before = items_read(blocks.drop_last(), names, cfg);
        let here = block_names(b, names, cfg);
        whitelist::law_found_names_are_wanted(
            b.cleaned(),
            names,
            cfg.max_edit_distance as nat,
            true,
        );
        assert forall|i: int| 0 <= i < items_read(blocks, names, cfg).len() implies ({
            let m = #[trigger] items_read(blocks, names, cfg)[i];
            names.contains(m.0) && !m.2.below(cfg.min_confidence)
        }) by {
            if i < before.len() {
                assert(items_read(blocks, names, cfg)[i] == before[i]);
            } else {
                assert(here.contains(here[i - before.len()]));
            }
        }
    }
}

/// Adds one reading for each name.
pub fn append_items(
    items: &mut Vec<(String, String, Score)>,
    names: &Vec<String>,
    read: &String,
    score: Score,
)
    ensures
        item_readings(final(items)@) == item_readings(old(items)@) + whitelist::texts(
            names@,
        ).map_values(|name: Seq<char>| (name, read@, score)),
{
    let ghost before = item_readings(items@);
    let ghost more = whitelist::texts(names@).map_values(
        |name: Seq<char>| (name, read@, score),
    );
    let mut k: usize = 0;
    assert(item_readings(items@) =~= before + more.take(0));
    while k < names.len()
        invariant
            k <= names@.len(),
            more == whitelist::texts(names@).map_values(
                |name: Seq<char>| (name, read@, score),
            ),
            item_readings(items@) == before + more.take(k as int),
        decreases names.len() - k,
    {
        let ghost had = items@;
        items.push((names[k].clone(), read.clone(), score));
        assert(item_readings(items@) =~= item_readings(had).push(more[k as int]));
        assert(before + more.take(k + 1) =~= (before + more.take(k as int)).push(more[k as int]));
        k = k + 1;
    }
    assert(more.take(more.len() as int) =~= more);
}

/// The wanted items in the blocks. Places are not needed: items are picked up with
/// a fixed button.
pub fn match_items(blocks: &[RawTextBlock], names: &Whitelist, cfg: &TextOcrConfig) -> (found: Vec<
    (String, String, Score),
>)
    ensures
        item_readings(found@) == items_read(blocks@, names@, *cfg),
{
    let mut items: Vec<(String, String, Score)> = Vec::new();
    let mut i: usize = 0;
    assert(blocks@.take(0) =~= Seq::<RawTextBlock>::empty());
    assert(item_readings(items@) =~= Seq::<ItemReading>::empty());
    while i < blocks.len()
        invariant
            i <= blocks@.len(),
            item_readings(items@) == items_read(blocks@.take(i as int), names@, *cfg),
        decreases blocks.len() - i,
    {
        let b: &RawTextBlock = &blocks[i];
        assert(blocks@.take(i + 1).drop_last() =~= blocks@.take(i as int));
        assert(blocks@.take(i + 1).last() == *b);
        i = i + 1;
        if b.confidence.is_below(&cfg.min_confidence) {
            assert(items_read(blocks@.take(i as int), names@, *cfg) =~= item_readings(items@));
            continue;
        }
        let cleaned: String = text::filter_chinese_only(b.text.as_str());
        if cleaned.as_str().is_empty() {
            assert(items_read(blocks@.take(i as int), names@, *cfg) =~= item_readings(items@));
            continue;
        }
        let found: Vec<String> = find_whitelist_matches(
            cleaned.as_str(),
            names,
            cfg.max_edit_distance,
        );
        append_items(&mut items, &found, &b.text, b.confidence);
    }
    assert(blocks@.take(blocks@.len() as int) =~= blocks@);
    items
}

/// The block is trusted, holds Chinese text, and has its middle between the left and the
/// right share of the width and between the upper and the lower share of the height.
pub open spec fn stands_on_the_plaque(
    b: RawTextBlock,
    frame_w: int,
    frame_h: int,
    cfg: TextOcrConfig,
) -> bool {
    let middle_x = b.x + geometry::half(b.w as int);
    let middle_y = b.y + geometry::half(b.h as int);
    &&& !b.confidence.below(cfg.min_confidence)
    &&& text::chinese_only(b.text@).len() > 0
    &&& middle_x >= double::scaled(frame_w, cfg.map_name_left_frac@ as int)
    &&& middle_x <= double::scaled(frame_w, cfg.map_name_right_frac@ as int)
    &&& middle_y >= double::scaled(frame_h, cfg.map_name_top_frac@ as int)
    &&& middle_y <= double::scaled(frame_h, cfg.map_name_bottom_frac@ as int)
}

/// Block number `i` is the first of the most confident ones on the plaque.
pub open spec fn leads_the_plaque(
    blocks: Seq<RawTextBlock>,
    i: int,
    frame_w: int,
    frame_h: int,
    cfg: TextOcrConfig,
) -> bool {
    &&& 0 <= i < blocks.len()
    &&& stands_on_the_plaque(blocks[i], frame_w, frame_h, cfg)
    &&& forall|j: int|
        0 <= j < blocks.len() && stands_on_the_plaque(#[trigger] blocks[j], frame_w, frame_h, cfg)
            ==> !blocks[i].confidence.below(blocks[j].confidence)
    &&& forall|j: int|
        0 <= j < i && stands_on_the_plaque(#[trigger] blocks[j], frame_w, frame_h, cfg)
            ==> !blocks[j].confidence.at_least(blocks[i].confidence)
}

/// The name of the map is the Chinese text of a block that has its middle inside all four
/// borders of the plaque, the first of the most confident ones there. It is missing only
/// where no trusted block with Chinese text stands there.
pub proof fn law_map_name_stands_on_the_plaque(
    blocks: Seq<RawTextBlock>,
    frame_w: int,
    frame_h: int,
    cfg: TextOcrConfig,
)
    ensures
        match map_name(blocks, frame_w, frame_h, cfg) {
            Some(best) => exists|i: int| #[trigger]
                leads_the_plaque(blocks, i, frame_w, frame_h, cfg) && best == (
                    text::chinese_only(blocks[i].text@),
                    blocks[i].confidence,
                ),
            None => forall|i: int|
                0 <= i < blocks.len() ==> !stands_on_the_plaque(
                    #[trigger] blocks[i],
                    frame_w,
                    frame_h,
                    cfg,
                ),
        },
    decreases blocks.len(),
{
    if blocks.len() > 0 {
        let shorter = blocks.drop_last();
        let last = blocks.len() - 1;
        law_map_name_stands_on_the_plaque(shorter, frame_w, frame_h, cfg);
        assert forall|j: int| 0 <= j < last implies shorter[j] == #[trigger] blocks[j] by {}
        match map_name(shorter, frame_w, frame_h, cfg) {
            Some(best) => {
                let i = choose|i: int| #[trigger]
                    leads_the_plaque(shorter, i, frame_w, frame_h, cfg) && best == (
                        text::chinese_only(shorter[i].text@),
                        shorter[i].confidence,
                    );
                assert(blocks[i] == shorter[i]);
                assert forall|j: int|
                    0 <= j < last && stands_on_the_plaque(
                        #[trigger] blocks[j],
                        frame_w,
                        frame_h,
                        cfg,
                    ) implies !best.1.below(blocks[j].confidence) by {
                    assert(shorter[j] == blocks[j]);
                }
                if stands_on_the_plaque(blocks[last], frame_w, frame_h, cfg) && best.1.below(
                    blocks[last].confidence,
                ) {
                    assert(leads_the_plaque(blocks, last, frame_w, frame_h, cfg));
                } else {
                    assert forall|j: int|
                        0 <= j < i && stands_on_the_plaque(
                            #[trigger] blocks[j],
                            frame_w,
                            frame_h,
                            cfg,
                        ) implies !blocks[j].confidence.at_least(blocks[i].confidence) by {
                        assert(shorter[j] == blocks[j]);
                    }
                    assert(leads_the_plaque(blocks, i, frame_w, frame_h, cfg));
                }
            },
            None => {
                assert forall|j: int| 0 <= j < last implies !stands_on_the_plaque(
                    #[trigger] blocks[j],
                    frame_w,
                    frame_h,
                    cfg,
                ) by {
                    assert(shorter[j] == blocks[j]);
                }
                if stands_on_the_plaque(blocks[last], frame_w, frame_h, cfg) {
                    assert(leads_the_plaque(blocks, last, frame_w, frame_h, cfg));
                }
            },
        }
    }
}

/// Text that is not on the plaque changes nothing: a block that lies wholly left or right
/// of it, above or below it, may be there or not.
pub proof fn law_text_beside_the_plaque_is_passed_over(
    before: Seq<RawTextBlock>,
    b: RawTextBlock,
    after: Seq<RawTextBlock>,
    frame_w: int,
    frame_h: int,
    cfg: TextOcrConfig,
)
    requires
        b.w >= 0,
        b.h >= 0,
        ({
            ||| b.x + b.w < double::scaled(frame_w, cfg.map_name_left_frac@ as int)
            ||| b.x > double::scaled(frame_w, cfg.map_name_right_frac@ as int)
            ||| b.y + b.h < double::scaled(frame_h, cfg.map_name_top_frac@ as int)
            ||| b.y > double::scaled(frame_h, cfg.map_name_bottom_frac@ as int)
        }),
    ensures
        map_name(before + seq![b] + after, frame_w, frame_h, cfg) == map_name(
            before + after,
            frame_w,
            frame_h,
            cfg,
        ),
    decreases after.len(),
{
    let with = before + seq![b] + after;
    let without = before + after;
    if after.len() == 0 {
        assert(with.drop_last() =~= without);
        assert(with.last() == b);
    } else {
        let fewer = after.drop_last();
        law_text_beside_the_plaque_is_passed_over(before, b, fewer, frame_w, frame_h, cfg);
        assert(with.drop_last() =~= before + seq![b] + fewer);
        assert(without.drop_last() =~= before + fewer);
        assert(with.last() == after.last() && without.last() == after.last());
    }
}

/// The block is trusted, and the name is found in its Chinese text.
pub open spec fn shows(b: RawTextBlock, name: Seq<char>, cfg: TextOcrConfig) -> bool {
    &&& !b.confidence.below(cfg.min_confidence)
    &&& text::chinese_only(b.text@).len() > 0
    &&& whitelist::is_found(
        text::chinese_only(b.text@),
        name,
        cfg.max_edit_distance as nat,
        true,
    )
}

/// Block number `i` shows the name of a reading, and the reading has its place and its
/// confidence.
pub open spec fn gives_monster(
    blocks: Seq<RawTextBlock>,
    i: int,
    m: MonsterReading,
    cfg: TextOcrConfig,
) -> bool {
    &&& 0 <= i < blocks.len()
    &&& shows(blocks[i], m.0, cfg)
    &&& m.1.x == blocks[i].x && m.1.y == blocks[i].y
    &&& m.1.w == blocks[i].w && m.1.h == blocks[i].h
    &&& m.1.area == (blocks[i].w * blocks[i].h) as i32
    &&& m.2 == blocks[i].confidence
}

/// Block number `i` shows the name of a reading, and the reading has its text and its
/// confidence.
pub open spec fn gives_item(
    blocks: Seq<RawTextBlock>,
    i: int,
    m: ItemReading,
    cfg: TextOcrConfig,
) -> bool {
    &&& 0 <= i < blocks.len()
    &&& shows(blocks[i], m.0, cfg)
    &&& m.1 == blocks[i].text@
    &&& m.2 == blocks[i].confidence
}

proof fn lemma_block_names(
    b: RawTextBlock,
    names: Seq<Seq<char>>,
    cfg: TextOcrConfig,
    name: Seq<char>,
)
    ensures
        block_names(b, names, cfg).contains(name) <==> names.contains(name) && shows(b, name, cfg),
{
    whitelist::law_names_found_are_the_wanted_ones(
        text::chinese_only(b.text@),
        names,
        cfg.max_edit_distance as nat,
        true,
        name,
    );
}

/// A monster is read exactly where a trusted block shows its wanted name, with the place
/// and the confidence of that block.
pub proof fn law_shown_monsters_are_read(
    blocks: Seq<RawTextBlock>,
    names: Seq<Seq<char>>,
    cfg: TextOcrConfig,
    m: MonsterReading,
)
    ensures
        monsters_read(blocks, names, cfg).contains(m) <==> names.contains(m.0) && exists|i: int|
            gives_monster(blocks, i, m, cfg),
    decreases blocks.len(),
{
    let all = monsters_read(blocks, names, cfg);
    if blocks.len() > 0 {
        let fewer = blocks.drop_last();
        let last = blocks.len() - 1;
        let b = blocks[last];
        law_shown_monsters_are_read(fewer, names, cfg, m);
        lemma_block_names(b, names, cfg, m.0);
        let before = monsters_read(fewer, names, cfg);
        let here = block_names(b, names, cfg);
        if all.contains(m) {
            let k = choose|k: int| 0 <= k < all.len() && all[k] == m;
            if k < before.len() {
                assert(before[k] == m);
                let i = choose|i: int| gives_monster(fewer, i, m, cfg);
                assert(gives_monster(blocks, i, m, cfg));
            } else {
                assert(here[k - before.len()] == m.0);
                assert(gives_monster(blocks, last, m, cfg));
            }
        }
        if names.contains(m.0) && exists|i: int| gives_monster(blocks, i, m, cfg) {
            let i = choose|i: int| gives_monster(blocks, i, m, cfg);
            if i < last {
                assert(gives_monster(fewer, i, m, cfg));
                let k = choose|k: int| 0 <= k < before.len() && before[k] == m;
                assert(all[k] == m);
            } else {
                let k = choose|k: int| 0 <= k < here.len() && here[k] == m.0;
                assert(all[before.len() + k] == m);
            }
        }
    }
}

/// An item is read exactly where a trusted block shows its wanted name, with the text and
/// the confidence of that block.
pub proof fn law_shown_items_are_read(
    blocks: Seq<RawTextBlock>,
    names: Seq<Seq<char>>,
    cfg: TextOcrConfig,
    m: ItemReading,
)
    ensures
        items_read(blocks, names, cfg).contains(m) <==> names.contains(m.0) && exists|i: int|
            gives_item(blocks, i, m, cfg),
    decreases blocks.len(),
{
    let all = items_read(blocks, names, cfg);
    if blocks.len() > 0 {
        let fewer = blocks.drop_last();
        let last = blocks.len() - 1;
        let b = blocks[last];
        law_shown_items_are_read(fewer, names, cfg, m);
        lemma_block_names(b, names, cfg, m.0);
        let before = items_read(fewer, names, cfg);
        let here = block_names(b, names, cfg);
        if all.contains(m) {
            let k = choose|k: int| 0 <= k < all.len() && all[k] == m;
            if k < before.len() {
                assert(before[k] == m);
                let i = choose|i: int| gives_item(fewer, i, m, cfg);
                assert(gives_item(blocks, i, m, cfg));
            } else {
                assert(here[k - before.len()] == m.0);
                assert(gives_item(blocks, last, m, cfg));
            }
        }
        if names.contains(m.0) && exists|i: int| gives_item(blocks, i, m, cfg) {
            let i = choose|i: int| gives_item(blocks, i, m, cfg);
            if i < last {
                assert(gives_item(fewer, i, m, cfg));
                let k = choose|k: int| 0 <= k < before.len() && before[k] == m;
                assert(all[k] == m);
            } else {
                let k = choose|k: int| 0 <= k < here.len() && here[k] == m.0;
                assert(all[before.len() + k] == m);
            }
        }
    }
}

/// Some trusted block shows some of the names.
pub open spec fn some_name_is_shown(
    blocks: Seq<RawTextBlock>,
    names: Seq<Seq<char>>,
    cfg: TextOcrConfig,
) -> bool {
    exists|i: int, k: int|
        0 <= i < blocks.len() && 0 <= k < names.len() && #[trigger] shows(blocks[i], names[k], cfg)
}

/// Monsters are found, and items are read, exactly where some trusted block shows a wanted
/// name, however many there are.
pub proof fn law_something_is_found_where_a_name_is_shown(
    blocks: Seq<RawTextBlock>,
    names: Seq<Seq<char>>,
    cfg: TextOcrConfig,
)
    ensures
        without_copies(monsters_read(blocks, names, cfg)).len() > 0 <==> some_name_is_shown(
            blocks,
            names,
            cfg,
        ),
        items_read(blocks, names, cfg).len() > 0 <==> some_name_is_shown(blocks, names, cfg),
{
    let read = monsters_read(blocks, names, cfg);
    let kept = without_copies(read);
    let items = items_read(blocks, names, cfg);
    law_no_monster_is_lost(read);
    if some_name_is_shown(blocks, names, cfg) {
        let (i, k) = choose|i: int, k: int|
            0 <= i < blocks.len() && 0 <= k < names.len() && #[trigger] shows(
                blocks[i],
                names[k],
                cfg,
            );
        let b = blocks[i];
        let m = (names[k], b.text_box(), b.confidence);
        law_shown_monsters_are_read(blocks, names, cfg, m);
        assert(gives_monster(blocks, i, m, cfg));
        assert(names.contains(m.0));
        let p = choose|p: int| 0 <= p < read.len() && read[p] == m;
        assert(is_covered(kept, read[p]));
        let item = (names[k], b.text@, b.confidence);
        law_shown_items_are_read(blocks, names, cfg, item);
        assert(gives_item(blocks, i, item, cfg));
        assert(items.contains(item));
    }
    if kept.len() > 0 {
        assert(read.contains(kept[0]));
        law_shown_monsters_are_read(blocks, names, cfg, kept[0]);
        let i = choose|i: int| gives_monster(blocks, i, kept[0], cfg);
        let k = choose|k: int| 0 <= k < names.len() && names[k] == kept[0].0;
        assert(shows(blocks[i], names[k], cfg));
    }
    if items.len() > 0 {
        assert(items.contains(items[0]));
        law_shown_items_are_read(blocks, names, cfg, items[0]);
        let i = choose|i: int| gives_item(blocks, i, items[0], cfg);
        let k = choose|k: int| 0 <= k < names.len() && names[k] == items[0].0;
        assert(shows(blocks[i], names[k], cfg));
    }
}

/// The boxes of two readings lie in practically the same place.
pub open spec fn lie_together(a: TextBox, b: TextBox) -> bool {
    geometry::overlap_significantly(
        Rect { x: a.x, y: a.y, w: a.w, h: a.h },
        Rect { x: b.x, y: b.y, w: b.w, h: b.h },
    )
}

/// Some pixel lies in both boxes.
pub open spec fn share_a_pixel(a: TextBox, b: TextBox) -> bool {
    exists|x: int, y: int| #[trigger]
        geometry::has_pixel(Rect { x: a.x, y: a.y, w: a.w, h: a.h }, x, y) && geometry::has_pixel(
            Rect { x: b.x, y: b.y, w: b.w, h: b.h },
            x,
            y,
        )
}

/// Taking another reading up keeps a reading that it does not copy.
proof fn lemma_taking_up_keeps_the_others(
    kept: Seq<MonsterReading>,
    m: MonsterReading,
    r: MonsterReading,
)
    requires
        kept.contains(r),
        !is_copy(r, m),
    ensures
        take_up(kept, m).contains(r),
{
    if !is_outdone(kept, m) {
        let after = take_up(kept, m);
        let left = without_copies_of(kept, m);
        let place = first_copy(kept, m) as int;
        assert(kept.take(kept.len() as int) =~= kept);
        lemma_left_over_is_left(kept, m, kept.len() as int);
        lemma_place_is_in_range(kept, m);
        let k = choose|k: int| 0 <= k < kept.len() && kept[k] == r;
        assert(left.contains(kept[k]));
        let p = choose|p: int| 0 <= p < left.len() && left[p] == r;
        if p < place {
            assert(after[p] == r);
        } else {
            assert(after[p + 1] == r);
        }
    }
}

/// A reading that copies none of those that are kept is kept too.
proof fn lemma_new_readings_are_taken_up(kept: Seq<MonsterReading>, m: MonsterReading)
    requires
        forall|k: int| 0 <= k < kept.len() ==> !is_copy(#[trigger] kept[k], m),
    ensures
        take_up(kept, m).contains(m),
{
    lemma_place_is_in_range(kept, m);
    assert(!is_outdone(kept, m));
    assert(take_up(kept, m)[first_copy(kept, m) as int] == m);
}

proof fn lemma_readings_apart_are_kept(read: Seq<MonsterReading>, i: int, n: int)
    requires
        0 <= i < n <= read.len(),
        forall|j: int|
            0 <= j < read.len() && j != i && (#[trigger] read[j]).0 == read[i].0
                ==> !lie_together(read[j].1, read[i].1),
    ensures
        without_copies(read.take(n)).contains(read[i]),
    decreases n,
{
    let before = read.take(n - 1);
    assert(read.take(n).drop_last() =~= before);
    assert(read.take(n).last() == read[n - 1]);
    let kept = without_copies(before);
    law_no_monster_is_lost(before);
    if n - 1 == i {
        assert forall|k: int| 0 <= k < kept.len() implies !is_copy(#[trigger] kept[k], read[i]) by {
            assert(before.contains(kept[k]));
            let j = choose|j: int| 0 <= j < before.len() && before[j] == kept[k];
            assert(read[j] == kept[k]);
        }
        lemma_new_readings_are_taken_up(kept, read[i]);
    } else {
        lemma_readings_apart_are_kept(read, i, n - 1);
        lemma_copies_are_mutual(read[i], read[n - 1]);
        assert(!is_copy(read[n - 1], read[i]));
        lemma_taking_up_keeps_the_others(kept, read[n - 1], read[i]);
    }
}

/// A reading is dropped only for another one of its name in practically the same place,
/// and never for one that it shares no pixel with. For every reading one of its name is
/// kept that is not less confident.
pub proof fn law_readings_apart_are_kept(read: Seq<MonsterReading>, i: int)
    requires
        0 <= i < read.len(),
    ensures
        (forall|j: int|
            0 <= j < read.len() && j != i && (#[trigger] read[j]).0 == read[i].0
                ==> !lie_together(read[j].1, read[i].1)) ==> without_copies(read).contains(read[i]),
        (forall|j: int|
            0 <= j < read.len() && j != i && (#[trigger] read[j]).0 == read[i].0
                ==> !share_a_pixel(read[j].1, read[i].1)) ==> without_copies(read).contains(
            read[i],
        ),
        exists|k: int|
            0 <= k < without_copies(read).len() && (#[trigger] without_copies(read)[k]).0
                == read[i].0 && !without_copies(read)[k].2.below(read[i].2),
{
    assert(read.take(read.len() as int) =~= read);
    law_no_monster_is_lost(read);
    let kept = without_copies(read);
    assert(is_covered(kept, read[i]));
    let k = choose|k: int| 0 <= k < kept.len() && covers(#[trigger] kept[k], read[i]);
    assert(without_copies(read)[k].0 == read[i].0);
    assert forall|j: int|
        0 <= j < read.len() && !share_a_pixel((#[trigger] read[j]).1, read[i].1) implies
        !lie_together(read[j].1, read[i].1) by {
        let a = read[j].1;
        let b = read[i].1;
        let p = Rect { x: a.x, y: a.y, w: a.w, h: a.h };
        let q = Rect { x: b.x, y: b.y, w: b.w, h: b.h };
        assert forall|x: int, y: int| #[trigger] geometry::has_pixel(p, x, y) implies
            !geometry::has_pixel(q, x, y) by {}
        geometry::law_rectangles_apart_do_not_overlap(p, q);
    }
    if forall|j: int|
        0 <= j < read.len() && j != i && (#[trigger] read[j]).0 == read[i].0 ==> !share_a_pixel(
            read[j].1,
            read[i].1,
        ) {
        assert forall|j: int|
            0 <= j < read.len() && j != i && (#[trigger] read[j]).0 == read[i].0 implies
            !lie_together(read[j].1, read[i].1) by {
            assert(!share_a_pixel(read[j].1, read[i].1));
        }
    }
    if forall|j: int|
        0 <= j < read.len() && j != i && (#[trigger] read[j]).0 == read[i].0 ==> !lie_together(
            read[j].1,
            read[i].1,
        ) {
        lemma_readings_apart_are_kept(read, i, read.len() as int);
    }
}

/// Two readings of one name in practically the same place are never both kept.
pub proof fn law_copies_are_not_both_kept(read: Seq<MonsterReading>, j: int, k: int)
    requires
        0 <= j < without_copies(read).len(),
        0 <= k < without_copies(read).len(),
        j != k,
        without_copies(read)[j].0 == without_copies(read)[k].0,
    ensures
        !lie_together(without_copies(read)[j].1, without_copies(read)[k].1),
{
    law_kept_monsters_are_no_copies(read);
    assert(!is_copy(without_copies(read)[j], without_copies(read)[k]));
}

/// Of two readings of one name in practically the same place the more confident one is
/// kept, and of equally confident ones the first; other two readings are both kept, in
/// their order.
pub proof fn law_the_more_confident_copy_is_kept(a: MonsterReading, b: MonsterReading)
    ensures
        without_copies(seq![a, b]) == if a.0 == b.0 && lie_together(a.1, b.1) {
            if a.2.below(b.2) {
                seq![b]
            } else {
                seq![a]
            }
        } else {
            seq![a, b]
        },
{
    let none = Seq::<MonsterReading>::empty();
    let one = seq![a];
    assert(seq![a, b].drop_last() =~= one);
    assert(one.drop_last() =~= none);
    reveal(Seq::filter);
    reveal_with_fuel(without_copies, 3);
    reveal_with_fuel(Seq::filter, 3);
    reveal_with_fuel(first_copy, 3);
    assert(without_copies(none) =~= none);
    assert(!is_outdone(none, a));
    assert(without_copies(one) =~= one);
    assert(one.drop_last() =~= none);
    assert(one.last() == a && one.first() == a && one[0] == a);
    assert(is_copy(one[0], b) == (a.0 == b.0 && lie_together(a.1, b.1)));
    if is_copy(a, b) {
        assert(is_outdone(one, b) == !a.2.below(b.2));
        assert(without_copies_of(one, b) =~= none);
        assert(none.insert(0, b) =~= seq![b]);
    } else {
        assert(!is_outdone(one, b));
        assert(without_copies_of(one, b) =~= one);
        assert(one.drop_first() =~= none);
        assert(first_copy(none, b) == 0);
        assert(first_copy(one, b) == 1);
        assert(one.insert(1, b) =~= seq![a, b]);
    }
}

/// Every pixel comes out with red first where it had blue first.
pub proof fn law_pixels_come_out_with_red_first(bgr: Seq<u8>, pixel: int)
    requires
        0 <= pixel,
    ensures
        rgb_byte(bgr, 3 * pixel) == bgr[3 * pixel + 2],
        rgb_byte(bgr, 3 * pixel + 1) == bgr[3 * pixel + 1],
        rgb_byte(bgr, 3 * pixel + 2) == bgr[3 * pixel],
{
    assert((3 * pixel) / 3 == pixel && (3 * pixel + 1) / 3 == pixel && (3 * pixel + 2) / 3
        == pixel);
}

/// Painting a rectangle makes every pixel in it black and leaves all others as they are.
pub proof fn law_painting_stays_in_the_rectangle(
    data: Seq<u8>,
    cols: int,
    r: Rect,
    x: int,
    y: int,
    channel: int,
)
    requires
        0 <= x < cols,
        0 <= y,
        0 <= channel < 3,
    ensures
        ({
            let i = 3 * (y * cols + x) + channel;
            let painted = painted_byte(data, cols, r, i);
            if geometry::has_pixel(r, x, y) {
                painted == 0
            } else {
                painted == data[i]
            }
        }),
{
    let pixel = y * cols + x;
    let i = 3 * pixel + channel;
    assert(i / 3 == pixel);
    vstd::arithmetic::div_mod::lemma_fundamental_div_mod_converse(pixel, cols, y, x);
}

/// What the recogniser gets: every pixel outside the chat box with red first, and black
/// inside it.
pub proof fn law_the_chat_box_is_not_read(
    frame: BgrMat,
    chat: Rect,
    x: int,
    y: int,
)
    requires
        frame.cols > 0,
        frame.rows >= 0,
        frame.data@.len() == 3 * (frame.cols * frame.rows),
        0 <= x < frame.cols,
        0 <= y < frame.rows,
    ensures
        ({
            let at = 3 * (y * frame.cols + x);
            let pixels = prepared_pixels(frame, chat);
            &&& pixels.len() == frame.data@.len()
            &&& geometry::has_pixel(chat, x, y) ==> pixels[at] == 0 && pixels[at + 1] == 0
                && pixels[at + 2] == 0
            &&& !geometry::has_pixel(chat, x, y) ==> pixels[at] == frame.data@[at + 2] && pixels[at
                + 1] == frame.data@[at + 1] && pixels[at + 2] == frame.data@[at]
        }),
{
    let cols = frame.cols as int;
    let pixel = y * cols + x;
    let at = 3 * pixel;
    assert(0 <= pixel && pixel < cols * frame.rows) by (nonlinear_arith)
        requires
            0 <= x < cols,
            0 <= y < frame.rows,
            pixel == y * cols + x,
    ;
    assert(at / 3 == pixel && (at + 1) / 3 == pixel && (at + 2) / 3 == pixel);
    law_painting_stays_in_the_rectangle(frame.data@, cols, chat, x, y, 0);
    law_painting_stays_in_the_rectangle(frame.data@, cols, chat, x, y, 1);
    law_painting_stays_in_the_rectangle(frame.data@, cols, chat, x, y, 2);
}

/// What is read in blocks one after the other is what is read in the first ones and then
/// what is read in the others.
pub proof fn law_readings_come_in_the_order_of_the_blocks(
    a: Seq<RawTextBlock>,
    b: Seq<RawTextBlock>,
    names: Seq<Seq<char>>,
    cfg: TextOcrConfig,
)
    ensures
        monsters_read(a + b, names, cfg) == monsters_read(a, names, cfg) + monsters_read(
            b,
            names,
            cfg,
        ),
        items_read(a + b, names, cfg) == items_read(a, names, cfg) + items_read(b, names, cfg),
    decreases b.len(),
{
    if b.len() == 0 {
        assert(a + b =~= a);
        assert(monsters_read(a, names, cfg) + monsters_read(b, names, cfg) =~= monsters_read(
            a,
            names,
            cfg,
        ));
        assert(items_read(a, names, cfg) + items_read(b, names, cfg) =~= items_read(
            a,
            names,
            cfg,
        ));
    } else {
        let fewer = b.drop_last();
        law_readings_come_in_the_order_of_the_blocks(a, fewer, names, cfg);
        assert((a + b).drop_last() =~= a + fewer);
        assert((a + b).last() == b.last());
        assert(monsters_read(a + b, names, cfg) =~= monsters_read(a, names, cfg) + monsters_read(
            b,
            names,
            cfg,
        ));
        assert(items_read(a + b, names, cfg) =~= items_read(a, names, cfg) + items_read(
            b,
            names,
            cfg,
        ));
    }
}

/// The readings show the names, the places, the texts and the confidences that were found.
pub proof fn law_readings_show_what_was_found(
    monsters: Seq<(String, TextBox, Score)>,
    items: Seq<(String, String, Score)>,
    i: int,
)
    ensures
        monster_readings(monsters).len() == monsters.len(),
        item_readings(items).len() == items.len(),
        0 <= i < monsters.len() ==> monster_readings(monsters)[i].0 == monsters[i].0@
            && monster_readings(monsters)[i].1 == monsters[i].1 && monster_readings(monsters)[i].2
            == monsters[i].2,
        0 <= i < items.len() ==> item_readings(items)[i].0 == items[i].0@ && item_readings(
            items,
        )[i].1 == items[i].1@ && item_readings(items)[i].2 == items[i].2,
{
}

/// Readings of which no two of one name lie in practically the same place are all kept, in
/// the order in which they were read.
pub proof fn law_distinct_readings_are_left_alone(read: Seq<MonsterReading>)
    requires
        forall|i: int, j: int|
            #![trigger read[i], read[j]]
            0 <= i < j < read.len() && read[i].0 == read[j].0 ==> !lie_together(
                read[i].1,
                read[j].1,
            ),
    ensures
        without_copies(read) == read,
    decreases read.len(),
{
    if read.len() > 0 {
        let fewer = read.drop_last();
        let last = read.len() - 1;
        let m = read[last];
        assert forall|i: int, j: int|
            #![trigger fewer[i], fewer[j]]
            0 <= i < j < fewer.len() && fewer[i].0 == fewer[j].0 implies !lie_together(
            fewer[i].1,
            fewer[j].1,
        ) by {
            assert(fewer[i] == read[i] && fewer[j] == read[j]);
        }
        law_distinct_readings_are_left_alone(fewer);
        assert forall|k: int| 0 <= k < fewer.len() implies !is_copy(#[trigger] fewer[k], m) by {
            assert(fewer[k] == read[k]);
        }
        assert(!is_outdone(fewer, m));
        lemma_first_copy(fewer, m, fewer.len());
        lemma_first_copy_is_in_range(fewer, m, fewer.len() as int);
        assert(fewer.take(fewer.len() as int) =~= fewer);
        assert(fewer.insert(fewer.len() as int, m) =~= read);
    } else {
        assert(without_copies(read) =~= read);
    }
}

/// The chat box is usually between 346 and 655 thousandths of the width and between 870
/// and 989 of the height.
pub proof fn law_the_chat_is_at_the_bottom(r: Rect, frame_w: int, frame_h: int, cfg: TextOcrConfig)
    requires
        cfg.is_default(),
        geometry::is_region(
            r,
            frame_w,
            frame_h,
            cfg.chat_box_left_frac@,
            cfg.chat_box_top_frac@,
            cfg.chat_box_right_frac@,
            cfg.chat_box_bottom_frac@,
        ),
        0 <= frame_w <= i32::MAX,
        0 <= frame_h <= i32::MAX,
    ensures
        geometry::is_between_thousandths(r, frame_w, frame_h, 346, 870, 655, 989),
{
    geometry::law_regions_lie_between_thousandths(r, frame_w, frame_h, 346, 870, 655, 989);
}


/// A block usually names the map only where its middle is between 760 and 990 thousandths
/// of the width and between 20 and 85 of the height.
pub proof fn law_the_map_name_is_in_the_upper_right_corner(
    b: RawTextBlock,
    frame_w: int,
    frame_h: int,
    cfg: TextOcrConfig,
)
    requires
        cfg.is_default(),
        names_the_map(b, frame_w, frame_h, cfg),
        0 <= frame_w <= i32::MAX,
        0 <= frame_h <= i32::MAX,
    ensures
        ({
            let x = b.x + geometry::half(b.w as int);
            let y = b.y + geometry::half(b.h as int);
            &&& 760 * frame_w <= 1000 * (x + 1) && 1000 * x <= 990 * frame_w
            &&& 20 * frame_h <= 1000 * (y + 1) && 1000 * y <= 85 * frame_h
        }),
{
    double::law_thousandths_of_an_extent(frame_w, 760, 990);
    double::law_thousandths_of_an_extent(frame_w, 990, 990);
    double::law_thousandths_of_an_extent(frame_h, 20, 85);
    double::law_thousandths_of_an_extent(frame_h, 85, 85);
}

/// Usually one edit is tolerated, and a block is trusted from a confidence of one half on.
pub proof fn law_one_edit_is_usually_tolerated(cfg: TextOcrConfig, b: RawTextBlock)
    requires
        cfg.is_default(),
        b.confidence.bits <= 2139095040,
    ensures
        cfg.max_edit_distance == 1,
        b.is_usable(cfg.min_confidence) <==> b.confidence.bits >= 1056964608
            && text::chinese_only(b.text@).len() > 0,
{
}

} // verus!
