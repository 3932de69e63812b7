//! The position of the character, read from the digits below the small map.
//!
//! Every character of the display is a connected component. Each is compared with
//! the digit templates, and what was recognised, from left to right, must spell two
//! numbers with a comma between them.
use crate::best_match;
use crate::double;
use crate::double::Double;
use crate::geometry;
use crate::geometry::Rect;
use crate::monster_detector::Blob;
use crate::monster_matcher;
use crate::score::Score;
use crate::text;
use vstd::prelude::*;

verus! {

/// Encoding of seven tenths, the confidence that a digit has to reach.
pub const DIGIT_CONFIDENCE_BITS: u32 = 1060320051;

/// Pixels that are looked at around a character.
pub const CHAR_PADDING: u8 = 2;

/// A template of a digit or of the comma and its size.
#[derive(Debug, Clone)]
pub struct DigitTemplate {
    pub label: String,
    pub cols: i32,
    pub rows: i32,
}

/// Calibration of the reading. Borders are shares of the frame.
#[derive(Clone, Copy, Debug)]
pub struct PositionReaderConfig {
    /// Borders of the area that shows the position.
    pub roi_left_frac: Double,
    pub roi_top_frac: Double,
    pub roi_right_frac: Double,
    pub roi_bottom_frac: Double,
    /// Highest saturation of the digits.
    pub s_max: Double,
    /// Lowest brightness of the digits.
    pub v_min: Double,
    /// Size of the closing that mends broken strokes.
    pub close_kernel_w: i32,
    pub close_kernel_h: i32,
    /// Open bounds on the size of a character.
    pub min_h: i32,
    pub max_h: i32,
    pub min_w: i32,
    pub max_w: i32,
    pub min_area: i32,
}

impl PositionReaderConfig {
    /// The calibration that is used where nothing else is configured.
    pub open spec fn is_default(self) -> bool {
        &&& self.roi_left_frac@ == double::thousandths_units(830)
        &&& self.roi_top_frac@ == double::thousandths_units(250)
        &&& self.roi_right_frac@ == double::thousandths_units(990)
        &&& self.roi_bottom_frac@ == double::thousandths_units(300)
        &&& self.s_max@ == double::thousandths_units(60000)
        &&& self.v_min@ == double::thousandths_units(150000)
        &&& self.close_kernel_w == 1
        &&& self.close_kernel_h == 3
        &&& self.min_h == 3
        &&& self.max_h == 30
        &&& self.min_w == 1
        &&& self.max_w == 40
        &&& self.min_area == 3
    }
}

impl Default for PositionReaderConfig {
    fn default() -> (r: PositionReaderConfig)
        ensures
            r.is_default(),
    {
        PositionReaderConfig {
            roi_left_frac: Double::thousandths(830),
            roi_top_frac: Double::thousandths(250),
            roi_right_frac: Double::thousandths(990),
            roi_bottom_frac: Double::thousandths(300),
            s_max: Double::thousandths(60000),
            v_min: Double::thousandths(150000),
            close_kernel_w: 1,
            close_kernel_h: 3,
            min_h: 3,
            max_h: 30,
            min_w: 1,
            max_w: 40,
            min_area: 3,
        }
    }
}

/// The area of a frame that shows the position.
pub fn compute_roi_rect(frame_w: i32, frame_h: i32, cfg: &PositionReaderConfig) -> (r: Rect)
    ensures
        geometry::is_region(
            r,
            frame_w as int,
            frame_h as int,
            cfg.roi_left_frac@,
            cfg.roi_top_frac@,
            cfg.roi_right_frac@,
            cfg.roi_bottom_frac@,
        ),
{
    geometry::region(
        frame_w,
        frame_h,
        &cfg.roi_left_frac,
        &cfg.roi_top_frac,
        &cfg.roi_right_frac,
        &cfg.roi_bottom_frac,
    )
}

/// The label that a digit template file stands for: its stem, or a comma for `comma`.
pub open spec fn label_of(file_name: Seq<char>) -> Option<Seq<char>> {
    match monster_matcher::png_stem(file_name) {
        Some(stem) => if stem == seq!['c', 'o', 'm', 'm', 'a'] {
            Some(seq![','])
        } else {
            Some(stem)
        },
        None => None,
    }
}

/// The label that a digit template file stands for.
pub fn digit_label(file_name: &str) -> (r: Option<String>)
    ensures
        match r {
            Some(label) => label_of(file_name@) == Some(label@),
            None => label_of(file_name@) is None,
        },
{
    match monster_matcher::template_name(file_name) {
        Some(stem) => {
            proof {
                reveal_strlit("comma");
                assert("comma"@ =~= seq!['c', 'o', 'm', 'm', 'a']);
            }
            if text::same_text(stem.as_str(), "comma") {
                let mut label: String = String::new();
                label.push(',');
                assert(label@ =~= seq![',']);
                Some(label)
            } else {
                Some(stem)
            }
        },
        None => None,
    }
}

/// A component has the size of a character.
pub open spec fn is_char(b: Blob, cfg: PositionReaderConfig) -> bool {
    &&& cfg.min_h < b.h < cfg.max_h
    &&& cfg.min_w < b.w < cfg.max_w
    &&& b.area > cfg.min_area
}

pub open spec fn place_of(b: Blob) -> Rect {
    Rect { x: b.x, y: b.y, w: b.w, h: b.h }
}

/// Puts a box behind all that begin no further right.
pub open spec fn insert_by_x(boxes: Seq<Rect>, b: Rect) -> Seq<Rect>
    decreases boxes.len(),
{
    if boxes.len() == 0 || boxes.last().x <= b.x {
        boxes.push(b)
    } else {
        insert_by_x(boxes.drop_last(), b).push(boxes.last())
    }
}

/// The boxes of the characters from left to right; boxes that begin in one column keep
/// their order.
pub open spec fn char_boxes(blobs: Seq<Blob>, cfg: PositionReaderConfig) -> Seq<Rect>
    decreases blobs.len(),
{
    if blobs.len() == 0 {
        Seq::empty()
    } else {
        let before = char_boxes(blobs.drop_last(), cfg);
        if is_char(blobs.last(), cfg) {
            insert_by_x(before, place_of(blobs.last()))
        } else {
            before
        }
    }
}

proof fn lemma_insert_by_x(boxes: Seq<Rect>, b: Rect, k: int)
    requires
        0 <= k <= boxes.len(),
        forall|j: int| k <= j < boxes.len() ==> (#[trigger] boxes[j]).x > b.x,
        k > 0 ==> boxes[k - 1].x <= b.x,
    ensures
        insert_by_x(boxes, b) == boxes.insert(k, b),
    decreases boxes.len(),
{
    if k < boxes.len() {
        assert(boxes[boxes.len() - 1].x > b.x);
        let fewer = boxes.drop_last();
        assert forall|j: int| k <= j < fewer.len() implies (#[trigger] fewer[j]).x > b.x by {
            assert(fewer[j] == boxes[j]);
        }
        lemma_insert_by_x(fewer, b, k);
        assert(boxes.insert(k, b) =~= fewer.insert(k, b).push(boxes.last()));
    } else {
        assert(boxes.insert(k, b) =~= boxes.push(b));
    }
}

/// The boxes of the characters among the components, from left to right.
pub fn detect_char_boxes(blobs: &[Blob], cfg: &PositionReaderConfig) -> (boxes: Vec<Rect>)
    ensures
        boxes@ == char_boxes(blobs@, *cfg),
{
    let mut boxes: Vec<Rect> = Vec::new();
    let mut i: usize = 0;
    assert(blobs@.take(0) =~= Seq::<Blob>::empty());
    while i < blobs.len()
        invariant
            i <= blobs@.len(),
            boxes@ == char_boxes(blobs@.take(i as int), *cfg),
        decreases blobs.len() - i,
    {
        let b: Blob = blobs[i];
        assert(blobs@.take(i + 1).drop_last() =~= blobs@.take(i as int));
        assert(blobs@.take(i + 1).last() == b);
        if b.h > cfg.min_h && b.h < cfg.max_h && b.w > cfg.min_w && b.w < cfg.max_w && b.area
            > cfg.min_area {
            let place: Rect = Rect { x: b.x, y: b.y, w: b.w, h: b.h };
            let mut k: usize = boxes.len();
            while k > 0 && boxes[k - 1].x > place.x
                invariant
                    k <= boxes@.len(),
                    forall|j: int| k <= j < boxes@.len() ==> (#[trigger] boxes@[j]).x > place.x,
                decreases k,
            {
                k = k - 1;
            }
            proof {
                lemma_insert_by_x(boxes@, place, k as int);
            }
            boxes.insert(k, place);
        }
        i = i + 1;
    }
    assert(blobs@.take(blobs@.len() as int) =~= blobs@);
    boxes
}

pub open spec fn is_sorted_by_x(boxes: Seq<Rect>) -> bool {
    forall|i: int, j: int| 0 <= i <= j < boxes.len() ==> (#[trigger] boxes[i]).x <= (
    #[trigger] boxes[j]).x
}

proof fn lemma_insert_keeps_order(boxes: Seq<Rect>, b: Rect)
    requires
        is_sorted_by_x(boxes),
    ensures
        is_sorted_by_x(insert_by_x(boxes, b)),
        insert_by_x(boxes, b).to_multiset() == boxes.to_multiset().insert(b),
        insert_by_x(boxes, b).len() == boxes.len() + 1,
        forall|i: int|
            0 <= i <= boxes.len() ==> (#[trigger] insert_by_x(boxes, b)[i]).x <= b.x || (
            boxes.len() > 0 && insert_by_x(boxes, b)[i].x <= boxes.last().x),
    decreases boxes.len(),
{
    broadcast use vstd::seq_lib::group_to_multiset_ensures;

    if boxes.len() > 0 && boxes.last().x > b.x {
        let fewer = boxes.drop_last();
        assert forall|i: int, j: int| 0 <= i <= j < fewer.len() implies (#[trigger] fewer[i]).x <= (
        #[trigger] fewer[j]).x by {
            assert(fewer[i] == boxes[i] && fewer[j] == boxes[j]);
        }
        lemma_insert_keeps_order(fewer, b);
        let inner = insert_by_x(fewer, b);
        let whole = insert_by_x(boxes, b);
        assert(whole == inner.push(boxes.last()));
        assert(boxes =~= fewer.push(boxes.last()));
        assert(whole.to_multiset() =~= boxes.to_multiset().insert(b));
        assert forall|i: int, j: int| 0 <= i <= j < whole.len() implies (#[trigger] whole[i]).x <= (
        #[trigger] whole[j]).x by {
            if i < inner.len() {
                assert(whole[i] == inner[i]);
                if fewer.len() > 0 {
                    assert(boxes[fewer.len() - 1].x <= boxes[boxes.len() - 1].x);
                }
            }
            if j < inner.len() {
                assert(whole[j] == inner[j]);
            }
        }
        assert forall|i: int| 0 <= i <= boxes.len() implies (#[trigger] whole[i]).x <= b.x
            || whole[i].x <= boxes.last().x by {
            if i < inner.len() {
                assert(whole[i] == inner[i]);
                if fewer.len() > 0 {
                    assert(boxes[fewer.len() - 1].x <= boxes[boxes.len() - 1].x);
                }
            }
        }
    } else {
        let whole = insert_by_x(boxes, b);
        assert forall|i: int, j: int| 0 <= i <= j < whole.len() implies (#[trigger] whole[i]).x <= (
        #[trigger] whole[j]).x by {
            if i < boxes.len() {
                assert(boxes[i].x <= boxes[boxes.len() - 1].x);
            }
        }
        assert forall|i: int| 0 <= i <= boxes.len() implies (#[trigger] whole[i]).x <= b.x || (
        boxes.len() > 0 && whole[i].x <= boxes.last().x) by {
            if i < boxes.len() {
                assert(boxes[i].x <= boxes[boxes.len() - 1].x);
            }
        }
    }
}

/// The components that have the size of a character.
pub open spec fn chars_among(blobs: Seq<Blob>, cfg: PositionReaderConfig) -> Seq<Rect>
    decreases blobs.len(),
{
    if blobs.len() == 0 {
        Seq::empty()
    } else {
        let before = chars_among(blobs.drop_last(), cfg);
        if is_char(blobs.last(), cfg) {
            before.push(place_of(blobs.last()))
        } else {
            before
        }
    }
}

/// The character boxes come from left to right, and they are the boxes of the
/// components that have the size of a character, no more and no fewer.
pub proof fn law_characters_come_from_left_to_right(blobs: Seq<Blob>, cfg: PositionReaderConfig)
    ensures
        is_sorted_by_x(char_boxes(blobs, cfg)),
        char_boxes(blobs, cfg).to_multiset() == chars_among(blobs, cfg).to_multiset(),
    decreases blobs.len(),
{
    broadcast use vstd::seq_lib::group_to_multiset_ensures;

    if blobs.len() > 0 {
        law_characters_come_from_left_to_right(blobs.drop_last(), cfg);
        if is_char(blobs.last(), cfg) {
            lemma_insert_keeps_order(
                char_boxes(blobs.drop_last(), cfg),
                place_of(blobs.last()),
            );
        }
    }
}

/// The part of the position area in which a character is compared; `None` when it lies
/// outside.
pub fn char_crop(b: &Rect, area_w: i32, area_h: i32) -> (r: Option<Rect>)
    ensures
        match r {
            Some(cut) => geometry::is_padded(
                cut,
                *b,
                CHAR_PADDING as int,
                area_w as int,
                area_h as int,
            ) && cut.w > 0 && cut.h > 0,
            None => forall|cut: Rect| #[trigger]
                geometry::is_padded(cut, *b, CHAR_PADDING as int, area_w as int, area_h as int)
                    ==> cut.w <= 0 || cut.h <= 0,
        },
{
    geometry::padded(b, CHAR_PADDING, area_w, area_h)
}

/// Which templates can be looked for in a crop.
pub open spec fn usable_digits(
    templates: Seq<DigitTemplate>,
    crop_cols: int,
    crop_rows: int,
) -> Seq<bool> {
    templates.map_values(
        |t: DigitTemplate|
            monster_matcher::fits_in(t.cols as int, t.rows as int, crop_cols, crop_rows),
    )
}

/// The label of the template that matches a crop best, and its score, when the score is
/// high enough. The sizes are those at which the templates were compared, and `scores`
/// holds the score of each; that of one that does not fit is not looked at.
pub fn match_char(
    crop_cols: i32,
    crop_rows: i32,
    templates: &[DigitTemplate],
    scores: &[Score],
    min_confidence: Score,
) -> (r: Option<(String, Score)>)
    requires
        templates@.len() == scores@.len(),
    ensures
        match best_match::best_index(
            usable_digits(templates@, crop_cols as int, crop_rows as int),
            scores@,
        ) {
            Some(i) => if scores@[i].at_least(min_confidence) {
                r matches Some(p) && p.0@ == templates@[i].label@ && p.1 == scores@[i]
            } else {
                r is None
            },
            None => r is None,
        },
{
    let mut usable: Vec<bool> = Vec::new();
    let mut i: usize = 0;
    while i < templates.len()
        invariant
            i <= templates@.len(),
            usable@ == usable_digits(
                templates@,
                crop_cols as int,
                crop_rows as int,
            ).take(i as int),
        decreases templates.len() - i,
    {
        let fits: bool = monster_matcher::template_fits(
            templates[i].cols,
            templates[i].rows,
            crop_cols,
            crop_rows,
        );
        usable.push(fits);
        assert(usable@ =~= usable_digits(
            templates@,
            crop_cols as int,
            crop_rows as int,
        ).take(i + 1));
        i = i + 1;
    }
    assert(usable@ =~= usable_digits(templates@, crop_cols as int, crop_rows as int));
    match best_match::find_best(usable.as_slice(), scores) {
        Some(k) => if scores[k].is_at_least(&min_confidence) {
            Some((templates[k].label.clone(), scores[k]))
        } else {
            None
        },
        None => None,
    }
}

/// The labels that were recognised, one after the other.
pub open spec fn spelled(labels: Seq<Option<(String, Score)>>) -> Seq<char>
    decreases labels.len(),
{
    if labels.len() == 0 {
        Seq::empty()
    } else {
        match labels.last() {
            Some(p) => spelled(labels.drop_last()) + p.0@,
            None => spelled(labels.drop_last()),
        }
    }
}

/// Two 32-bit decimal numbers with one comma between them, white space around each of
/// them aside.
pub open spec fn position_in(line: Seq<char>) -> Option<(int, int)> {
    let comma = line.index_of_first(',');
    match comma {
        Some(i) => {
            let left = line.take(i);
            let right = line.skip(i + 1);
            if right.contains(',') {
                None
            } else {
                match (
                    text::decimal(text::trimmed(left)),
                    text::decimal(text::trimmed(right)),
                ) {
                    (Some(x), Some(y)) => Some((x, y)),
                    _ => None,
                }
            }
        },
        None => None,
    }
}

pub open spec fn as_ints(r: Option<(i32, i32)>) -> Option<(int, int)> {
    match r {
        Some(p) => Some((p.0 as int, p.1 as int)),
        None => None,
    }
}

fn find_comma(chars: &[char], from: usize) -> (r: Option<usize>)
    requires
        from <= chars@.len(),
    ensures
        match r {
            Some(i) => from <= i < chars@.len() && chars@[i as int] == ',' && forall|j: int|
                from <= j < i ==> chars@[j] != ',',
            None => forall|j: int| from <= j < chars@.len() ==> chars@[j] != ',',
        },
{
    let mut i: usize = from;
    while i < chars.len()
        invariant
            from <= i <= chars@.len(),
            forall|j: int| from <= j < i ==> chars@[j] != ',',
        decreases chars.len() - i,
    {
        if chars[i] == ',' {
            return Some(i);
        }
        i = i + 1;
    }
    None
}

/// Reads a position from a line of text.
pub fn parse_position(line: &str) -> (r: Option<(i32, i32)>)
    ensures
        as_ints(r) == position_in(line@),
{
    let chars: Vec<char> = text::to_chars(line);
    let all: &[char] = chars.as_slice();
    let total: usize = all.len();
    match find_comma(all, 0) {
        Some(i) => {
            proof {
                lemma_first_comma(all@, i as int);
            }
            let left: &[char] = &all[0..i];
            let right: &[char] = &all[i + 1..total];
            assert(left@ =~= all@.take(i as int));
            assert(right@ =~= all@.skip(i + 1));
            match find_comma(right, 0) {
                Some(k) => {
                    assert(right@[k as int] == ',');
                    assert(right@.contains(','));
                    return None;
                },
                None => {},
            }
            assert(!right@.contains(','));
            let x: Option<i32> = text::parse_i32(text::trim_chars(left).as_slice());
            let y: Option<i32> = text::parse_i32(text::trim_chars(right).as_slice());
            match (x, y) {
                (Some(a), Some(b)) => Some((a, b)),
                _ => None,
            }
        },
        None => {
            assert(!all@.contains(','));
            proof {
                all@.index_of_first_ensures(',');
            }
            None
        },
    }
}

proof fn lemma_first_comma(line: Seq<char>, i: int)
    requires
        0 <= i < line.len(),
        line[i] == ',',
        forall|j: int| 0 <= j < i ==> line[j] != ',',
    ensures
        line.index_of_first(',') == Some(i),
{
    line.index_of_first_ensures(',');
    assert(line.contains(','));
}

/// The position that the recognised characters spell. A character that was not
/// recognised is passed over.
pub fn read_position(labels: &[Option<(String, Score)>]) -> (r: Option<(i32, i32)>)
    ensures
        as_ints(r) == position_in(spelled(labels@)),
{
    let mut line: String = String::new();
    let mut i: usize = 0;
    assert(labels@.take(0) =~= Seq::<Option<(String, Score)>>::empty());
    while i < labels.len()
        invariant
            i <= labels@.len(),
            line@ == spelled(labels@.take(i as int)),
        decreases labels.len() - i,
    {
        assert(labels@.take(i + 1).drop_last() =~= labels@.take(i as int));
        assert(labels@.take(i + 1).last() == labels@[i as int]);
        match &labels[i] {
            Some(p) => {
                let chars: Vec<char> = text::to_chars(p.0.as_str());
                let ghost before = line@;
                let mut k: usize = 0;
                assert(line@ =~= before + chars@.take(0));
                while k < chars.len()
                    invariant
                        k <= chars@.len(),
                        line@ == before + chars@.take(k as int),
                    decreases chars.len() - k,
                {
                    line.push(chars[k]);
                    assert(chars@.take(k + 1) =~= chars@.take(k as int).push(chars@[k as int]));
                    assert(line@ =~= before + chars@.take(k + 1));
                    k = k + 1;
                }
                assert(chars@.take(chars@.len() as int) =~= chars@);
            },
            None => {},
        }
        i = i + 1;
    }
    assert(labels@.take(labels@.len() as int) =~= labels@);
    parse_position(line.as_str())
}

/// A position is read back from the line that shows it.
pub proof fn law_shown_positions_are_read_back(x: int, y: int)
    requires
        i32::MIN <= x <= i32::MAX,
        i32::MIN <= y <= i32::MAX,
    ensures
        position_in(text::decimal_text(x) + seq![','] + text::decimal_text(y)) == Some((x, y)),
{
    text::law_written_numbers_are_read_back(x);
    text::law_written_numbers_are_read_back(y);
    let left = text::decimal_text(x);
    let right = text::decimal_text(y);
    let line = left + seq![','] + right;
    assert(line[left.len() as int] == ',');
    assert forall|j: int| 0 <= j < left.len() implies line[j] != ',' by {
        assert(line[j] == left[j]);
    }
    lemma_first_comma(line, left.len() as int);
    assert(line.take(left.len() as int) =~= left);
    assert(line.skip(left.len() as int + 1) =~= right);
}

/// Labels are spelled one after the other, every recognised one in full, and one that was
/// not recognised not at all.
pub proof fn law_labels_are_spelled_in_full(
    first: Seq<Option<(String, Score)>>,
    second: Seq<Option<(String, Score)>>,
    label: Option<(String, Score)>,
)
    ensures
        spelled(first + second) == spelled(first) + spelled(second),
        spelled(seq![label]) == match label {
            Some(p) => p.0@,
            None => Seq::empty(),
        },
    decreases second.len(),
{
    let one = seq![label];
    reveal_with_fuel(spelled, 2);
    assert(one.drop_last() =~= Seq::<Option<(String, Score)>>::empty());
    assert(Seq::<char>::empty() + spelled(one) =~= spelled(one));
    match label {
        Some(p) => {
            assert(Seq::<char>::empty() + p.0@ =~= p.0@);
        },
        None => {},
    }
    if second.len() == 0 {
        assert(first + second =~= first);
        assert(spelled(first) + spelled(second) =~= spelled(first));
    } else {
        law_labels_are_spelled_in_full(first, second.drop_last(), label);
        assert((first + second).drop_last() =~= first + second.drop_last());
        assert((first + second).last() == second.last());
        match second.last() {
            Some(p) => {
                assert(spelled(first) + (spelled(second.drop_last()) + p.0@) =~= (spelled(first)
                    + spelled(second.drop_last())) + p.0@);
            },
            None => {},
        }
    }
}

/// The recognised labels are the characters of the line, one each and in order: character
/// number `k` is the label at `places[k]`, and no other label was recognised.
pub open spec fn shows_line(
    labels: Seq<Option<(String, Score)>>,
    places: Seq<int>,
    line: Seq<char>,
) -> bool {
    &&& places.len() == line.len()
    &&& forall|j: int, k: int| 0 <= j < k < places.len() ==> places[j] < places[k]
    &&& forall|k: int|
        0 <= k < places.len() ==> 0 <= #[trigger] places[k] < labels.len() && (
        match labels[places[k]] {
            Some(p) => p.0@ == seq![line[k]],
            None => false,
        })
    &&& forall|i: int|
        0 <= i < labels.len() && (#[trigger] labels[i]) is Some ==> places.contains(i)
}

/// Labels that show a line spell it.
pub proof fn law_shown_lines_are_spelled(
    labels: Seq<Option<(String, Score)>>,
    places: Seq<int>,
    line: Seq<char>,
)
    requires
        shows_line(labels, places, line),
    ensures
        spelled(labels) == line,
    decreases labels.len(),
{
    if labels.len() == 0 {
        if places.len() > 0 {
            assert(0 <= places[0] < labels.len());
        }
        assert(line =~= Seq::<char>::empty());
    } else {
        let fewer = labels.drop_last();
        let last = labels.len() - 1;
        if labels[last] is Some {
            assert(places.contains(last));
            let k = choose|k: int| 0 <= k < places.len() && places[k] == last;
            let end = places.len() - 1;
            if k < end {
                assert(places[k] < places[end]);
            }
            assert(places[end] == last);
            let less = places.drop_last();
            assert forall|i: int|
                0 <= i < fewer.len() && (#[trigger] fewer[i]) is Some implies less.contains(i) by {
                assert(labels[i] is Some);
                let n = choose|n: int| 0 <= n < places.len() && places[n] == i;
                assert(less[n] == i);
            }
            assert forall|n: int| 0 <= n < less.len() implies 0 <= #[trigger] less[n]
                < fewer.len() && (match fewer[less[n]] {
                Some(p) => p.0@ == seq![line.drop_last()[n]],
                None => false,
            }) by {
                assert(less[n] == places[n]);
                assert(places[n] < places[end]);
            }
            law_shown_lines_are_spelled(fewer, less, line.drop_last());
            assert(line =~= line.drop_last() + seq![line[end]]);
        } else {
            assert forall|i: int|
                0 <= i < fewer.len() && (#[trigger] fewer[i]) is Some implies places.contains(
                i,
            ) by {
                assert(labels[i] is Some);
            }
            assert forall|n: int| 0 <= n < places.len() implies 0 <= #[trigger] places[n]
                < fewer.len() && (match fewer[places[n]] {
                Some(p) => p.0@ == seq![line[n]],
                None => false,
            }) by {
                assert(places[n] != last);
            }
            law_shown_lines_are_spelled(fewer, places, line);
        }
    }
}

/// Every position is read from the labels of the characters that show it, whatever
/// components between them were not recognised.
pub proof fn law_labels_of_a_position_are_read(
    labels: Seq<Option<(String, Score)>>,
    places: Seq<int>,
    x: int,
    y: int,
)
    requires
        i32::MIN <= x <= i32::MAX,
        i32::MIN <= y <= i32::MAX,
        shows_line(labels, places, text::decimal_text(x) + seq![','] + text::decimal_text(y)),
    ensures
        position_in(spelled(labels)) == Some((x, y)),
{
    let line = text::decimal_text(x) + seq![','] + text::decimal_text(y);
    law_shown_lines_are_spelled(labels, places, line);
    law_shown_positions_are_read_back(x, y);
}

/// A box is that of a character exactly when it is the box of a component between the
/// bounds, and the boxes come from left to right.
pub proof fn law_every_character_is_boxed(blobs: Seq<Blob>, cfg: PositionReaderConfig, r: Rect)
    ensures
        char_boxes(blobs, cfg).contains(r) <==> exists|i: int| #[trigger]
            is_box_of(blobs, i, cfg, r),
        forall|i: int, j: int|
            0 <= i < j < char_boxes(blobs, cfg).len() ==> (#[trigger] char_boxes(blobs, cfg)[i]).x
                <= (#[trigger] char_boxes(blobs, cfg)[j]).x,
    decreases blobs.len(),
{
    law_characters_come_from_left_to_right(blobs, cfg);
    let all = char_boxes(blobs, cfg);
    let among = chars_among(blobs, cfg);
    broadcast use vstd::seq_lib::group_to_multiset_ensures;

    assert(all.contains(r) <==> all.to_multiset().count(r) > 0);
    assert(among.contains(r) <==> among.to_multiset().count(r) > 0);
    lemma_chars_among(blobs, cfg, r);
}

/// The rectangle is that of component number `i`, which is larger than the lower bounds and
/// smaller than the upper ones.
pub open spec fn is_box_of(blobs: Seq<Blob>, i: int, cfg: PositionReaderConfig, r: Rect) -> bool {
    &&& 0 <= i < blobs.len()
    &&& blobs[i].h > cfg.min_h && blobs[i].h < cfg.max_h
    &&& blobs[i].w > cfg.min_w && blobs[i].w < cfg.max_w
    &&& blobs[i].area > cfg.min_area
    &&& r.x == blobs[i].x && r.y == blobs[i].y && r.w == blobs[i].w && r.h == blobs[i].h
}

proof fn lemma_chars_among(blobs: Seq<Blob>, cfg: PositionReaderConfig, r: Rect)
    ensures
        chars_among(blobs, cfg).contains(r) <==> exists|i: int| #[trigger]
            is_box_of(blobs, i, cfg, r),
    decreases blobs.len(),
{
    let all = chars_among(blobs, cfg);
    if blobs.len() > 0 {
        let fewer = blobs.drop_last();
        let last = blobs.len() - 1;
        lemma_chars_among(fewer, cfg, r);
        let before = chars_among(fewer, cfg);
        if all.contains(r) {
            let k = choose|k: int| 0 <= k < all.len() && all[k] == r;
            if k < before.len() {
                assert(before[k] == r);
                let i = choose|i: int| #[trigger] is_box_of(fewer, i, cfg, r);
                assert(is_box_of(blobs, i, cfg, r));
            } else {
                assert(is_box_of(blobs, last, cfg, r));
            }
        }
        if exists|i: int| #[trigger] is_box_of(blobs, i, cfg, r) {
            let i = choose|i: int| #[trigger] is_box_of(blobs, i, cfg, r);
            if i < last {
                assert(is_box_of(fewer, i, cfg, r));
                let k = choose|k: int| 0 <= k < before.len() && before[k] == r;
                assert(all[k] == r);
            } else {
                assert(all[before.len() as int] == r);
            }
        }
    }
}

/// White space around either number of a shown position makes no difference, and a line
/// with no comma or with two shows no position.
pub proof fn law_lines_have_one_comma(line: Seq<char>, i: int, j: int)
    ensures
        (forall|k: int| 0 <= k < line.len() ==> #[trigger] line[k] != ',') ==> position_in(line)
            is None,
        0 <= i < j < line.len() && line[i] == ',' && line[j] == ',' ==> position_in(line) is None,
{
    line.index_of_first_ensures(',');
    if 0 <= i < j < line.len() && line[i] == ',' && line[j] == ',' {
        assert(line.contains(','));
        let first = line.index_of_first(',')->0;
        assert(first <= i);
        assert(line.skip(first + 1)[j - first - 1] == ',');
        assert(line.skip(first + 1).contains(','));
    }
}

/// The numbers on both sides of the only comma are the position.
pub proof fn law_the_comma_parts_the_numbers(left: Seq<char>, right: Seq<char>)
    requires
        forall|k: int| 0 <= k < left.len() ==> #[trigger] left[k] != ',',
        forall|k: int| 0 <= k < right.len() ==> #[trigger] right[k] != ',',
    ensures
        position_in(left + seq![','] + right) == match (
            text::decimal(text::trimmed(left)),
            text::decimal(text::trimmed(right)),
        ) {
            (Some(x), Some(y)) => Some((x, y)),
            _ => None,
        },
{
    let line = left + seq![','] + right;
    assert(line[left.len() as int] == ',');
    assert forall|j: int| 0 <= j < left.len() implies line[j] != ',' by {
        assert(line[j] == left[j]);
    }
    lemma_first_comma(line, left.len() as int);
    assert(line.take(left.len() as int) =~= left);
    assert(line.skip(left.len() as int + 1) =~= right);
    assert(!right.contains(','));
}

/// A digit template file stands for what comes before its ending, and the one that is
/// called `comma` for a comma.
pub proof fn law_labels_come_from_the_file_names(stem: Seq<char>)
    requires
        stem.len() > 0,
    ensures
        stem == seq!['c', 'o', 'm', 'm', 'a'] ==> label_of(stem + seq!['.', 'p', 'n', 'g'])
            == Some(seq![',']),
        stem != seq!['c', 'o', 'm', 'm', 'a'] ==> label_of(stem + seq!['.', 'p', 'n', 'g'])
            == Some(stem),
{
    monster_matcher::law_template_names_come_before_the_ending(stem, stem);
}

/// A digit template is compared exactly when neither of its sides is longer than that of
/// the crop.
pub proof fn law_digits_fit_in_crops_of_their_size(
    templates: Seq<DigitTemplate>,
    crop_cols: int,
    crop_rows: int,
    i: int,
)
    requires
        0 <= i < templates.len(),
    ensures
        usable_digits(templates, crop_cols, crop_rows).len() == templates.len(),
        usable_digits(templates, crop_cols, crop_rows)[i] <==> !(templates[i].cols > crop_cols
            || templates[i].rows > crop_rows),
{
}

/// The position is usually shown between 830 and 990 thousandths of the width and between
/// 250 and 300 of the height.
pub proof fn law_the_position_is_below_the_small_map(r: Rect, frame_w: int, frame_h: int, cfg: PositionReaderConfig)
    requires
        cfg.is_default(),
        geometry::is_region(
            r,
            frame_w,
            frame_h,
            cfg.roi_left_frac@,
            cfg.roi_top_frac@,
            cfg.roi_right_frac@,
            cfg.roi_bottom_frac@,
        ),
        0 <= frame_w <= i32::MAX,
        0 <= frame_h <= i32::MAX,
    ensures
        geometry::is_between_thousandths(r, frame_w, frame_h, 830, 250, 990, 300),
{
    geometry::law_regions_lie_between_thousandths(r, frame_w, frame_h, 830, 250, 990, 300);
}

} // verus!
