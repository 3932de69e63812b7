//! Items on the ground, read in the battle area.
use crate::double;
use crate::double::Double;
use crate::geometry;
use crate::geometry::Rect;
use crate::text;
use crate::text_ocr;
use crate::text_ocr::RawTextBlock;
use crate::score::Score;
use crate::whitelist;
use crate::whitelist::Whitelist;
use vstd::prelude::*;

verus! {

/// Calibration of the reading. Borders are shares of the frame.
#[derive(Clone, Copy, Debug)]
pub struct ItemOcrConfig {
    /// Borders of the area in which items lie; the lower one ends above the chat.
    pub roi_left_frac: Double,
    pub roi_top_frac: Double,
    pub roi_right_frac: Double,
    pub roi_bottom_frac: Double,
    /// Edits that an item name may be off by.
    pub max_edit_distance: usize,
}

impl ItemOcrConfig {
    /// The calibration that is used where nothing else is configured.
    pub open spec fn is_default(self) -> bool {
        &&& self.roi_left_frac@ == double::thousandths_units(80)
        &&& self.roi_top_frac@ == double::thousandths_units(200)
        &&& self.roi_right_frac@ == double::thousandths_units(680)
        &&& self.roi_bottom_frac@ == double::thousandths_units(700)
        &&& self.max_edit_distance == 1
    }
}

impl Default for ItemOcrConfig {
    fn default() -> (r: ItemOcrConfig)
        ensures
            r.is_default(),
    {
        ItemOcrConfig {
            roi_left_frac: Double::thousandths(80),
            roi_top_frac: Double::thousandths(200),
            roi_right_frac: Double::thousandths(680),
            roi_bottom_frac: Double::thousandths(700),
            max_edit_distance: 1,
        }
    }
}

/// The area of a frame in which items are read.
pub fn compute_roi_rect(frame_w: i32, frame_h: i32, cfg: &ItemOcrConfig) -> (r: Rect)
    ensures
        geometry::is_region(
            r,
            frame_w as int,
            frame_h as int,
            cfg.roi_left_frac@,
            cfg.roi_top_frac@,
            cfg.roi_right_frac@,
            cfg.roi_bottom_frac@,
        ),
{
    geometry::region(
        frame_w,
        frame_h,
        &cfg.roi_left_frac,
        &cfg.roi_top_frac,
        &cfg.roi_right_frac,
        &cfg.roi_bottom_frac,
    )
}

/// The wanted item names in a text, short ones as tolerant as long ones.
pub fn find_whitelist_matches(text: &str, names: &Whitelist, max_edit_distance: usize) -> (found:
    Vec<String>)
    ensures
        whitelist::texts(found@) == whitelist::names_found(
            text@,
            names@,
            max_edit_distance as nat,
            false,
        ),
        whitelist::texts(found@).no_duplicates(),
{
    whitelist::find_names(text, names, max_edit_distance, false)
}

/// The wanted items in the blocks that were read, whatever their confidence.
pub open spec fn items_detected(
    blocks: Seq<RawTextBlock>,
    names: Seq<Seq<char>>,
    tolerance: nat,
) -> Seq<text_ocr::ItemReading>
    decreases blocks.len(),
{
    if blocks.len() == 0 {
        Seq::empty()
    } else {
        let b = blocks.last();
        let before = items_detected(blocks.drop_last(), names, tolerance);
        if b.cleaned().len() > 0 {
            before + whitelist::names_found(b.cleaned(), names, tolerance, false).map_values(
                |name: Seq<char>| (name, b.text@, b.confidence),
            )
        } else {
            before
        }
    }
}

/// The wanted items in the blocks that were read in the item area.
pub fn detect_items(blocks: &[RawTextBlock], cfg: &ItemOcrConfig, names: &Whitelist) -> (found: Vec<
    (String, String, Score),
>)
    ensures
        text_ocr::item_readings(found@) == items_detected(
            blocks@,
            names@,
            cfg.max_edit_distance as nat,
        ),
{
    let mut items: Vec<(String, String, Score)> = Vec::new();
    let mut i: usize = 0;
    assert(blocks@.take(0) =~= Seq::<RawTextBlock>::empty());
    assert(text_ocr::item_readings(items@) =~= Seq::<text_ocr::ItemReading>::empty());
    while i < blocks.len()
        invariant
            i <= blocks@.len(),
            text_ocr::item_readings(items@) == items_detected(
                blocks@.take(i as int),
                names@,
                cfg.max_edit_distance as nat,
            ),
        decreases blocks.len() - i,
    {
        let b: &RawTextBlock = &blocks[i];
        assert(blocks@.take(i + 1).drop_last() =~= blocks@.take(i as int));
        assert(blocks@.take(i + 1).last() == *b);
        i = i + 1;
        let cleaned: String = text::filter_chinese_only(b.text.as_str());
        if cleaned.as_str().is_empty() {
            continue;
        }
        let found: Vec<String> = find_whitelist_matches(
            cleaned.as_str(),
            names,
            cfg.max_edit_distance,
        );
        text_ocr::append_items(&mut items, &found, &b.text, b.confidence);
    }
    assert(blocks@.take(blocks@.len() as int) =~= blocks@);
    items
}

/// An item is read exactly where the Chinese text of a block holds its wanted name, up to
/// the tolerance however short the name is, with the text and the confidence of that block.
pub proof fn law_items_in_the_blocks_are_read(
    blocks: Seq<RawTextBlock>,
    names: Seq<Seq<char>>,
    tolerance: nat,
    m: text_ocr::ItemReading,
)
    ensures
        items_detected(blocks, names, tolerance).contains(m) <==> names.contains(m.0) && exists|
            i: int,
        | #[trigger] gives_item(blocks, i, m, tolerance),
    decreases blocks.len(),
{
    let all = items_detected(blocks, names, tolerance);
    if blocks.len() > 0 {
        let fewer = blocks.drop_last();
        let last = blocks.len() - 1;
        let b = blocks[last];
        law_items_in_the_blocks_are_read(fewer, names, tolerance, m);
        let cleaned = text::chinese_only(b.text@);
        whitelist::law_names_found_are_the_wanted_ones(cleaned, names, tolerance, false, m.0);
        let before = items_detected(fewer, names, tolerance);
        let here = whitelist::names_found(cleaned, names, tolerance, false);
        if all.contains(m) {
            let k = choose|k: int| 0 <= k < all.len() && all[k] == m;
            if k < before.len() {
                assert(before[k] == m);
                let i = choose|i: int| #[trigger] gives_item(fewer, i, m, tolerance);
                assert(gives_item(blocks, i, m, tolerance));
            } else {
                assert(here[k - before.len()] == m.0);
                assert(gives_item(blocks, last, m, tolerance));
            }
        }
        if names.contains(m.0) && exists|i: int| #[trigger] gives_item(blocks, i, m, tolerance) {
            let i = choose|i: int| #[trigger] gives_item(blocks, i, m, tolerance);
            if i < last {
                assert(gives_item(fewer, i, m, tolerance));
                let k = choose|k: int| 0 <= k < before.len() && before[k] == m;
                assert(all[k] == m);
            } else {
                let k = choose|k: int| 0 <= k < here.len() && here[k] == m.0;
                assert(all[before.len() + k] == m);
            }
        }
    }
}

/// Block number `i` holds the name of a reading, and the reading has its text and its
/// confidence.
pub open spec fn gives_item(
    blocks: Seq<RawTextBlock>,
    i: int,
    m: text_ocr::ItemReading,
    tolerance: nat,
) -> bool {
    &&& 0 <= i < blocks.len()
    &&& text::chinese_only(blocks[i].text@).len() > 0
    &&& whitelist::is_found(text::chinese_only(blocks[i].text@), m.0, tolerance, false)
    &&& m.1 == blocks[i].text@
    &&& m.2 == blocks[i].confidence
}

/// What is read in blocks one after the other is what is read in the first ones and then
/// what is read in the others.
pub proof fn law_items_come_in_the_order_of_the_blocks(
    a: Seq<RawTextBlock>,
    b: Seq<RawTextBlock>,
    names: Seq<Seq<char>>,
    tolerance: nat,
)
    ensures
        items_detected(a + b, names, tolerance) == items_detected(a, names, tolerance)
            + items_detected(b, names, tolerance),
    decreases b.len(),
{
    if b.len() == 0 {
        assert(a + b =~= a);
        assert(items_detected(a, names, tolerance) + items_detected(b, names, tolerance)
            =~= items_detected(a, names, tolerance));
    } else {
        let fewer = b.drop_last();
        law_items_come_in_the_order_of_the_blocks(a, fewer, names, tolerance);
        assert((a + b).drop_last() =~= a + fewer);
        assert((a + b).last() == b.last());
        assert(items_detected(a + b, names, tolerance) =~= items_detected(a, names, tolerance)
            + items_detected(b, names, tolerance));
    }
}

/// Items usually lie between 80 and 680 thousandths of the width and between 200 and 700
/// of the height.
pub proof fn law_items_lie_above_the_chat(r: Rect, frame_w: int, frame_h: int, cfg: ItemOcrConfig)
    requires
        cfg.is_default(),
        geometry::is_region(
            r,
            frame_w,
            frame_h,
            cfg.roi_left_frac@,
            cfg.roi_top_frac@,
            cfg.roi_right_frac@,
            cfg.roi_bottom_frac@,
        ),
        0 <= frame_w <= i32::MAX,
        0 <= frame_h <= i32::MAX,
    ensures
        geometry::is_between_thousandths(r, frame_w, frame_h, 80, 200, 680, 700),
{
    geometry::law_regions_lie_between_thousandths(r, frame_w, frame_h, 80, 200, 680, 700);
}

} // verus!
