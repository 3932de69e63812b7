//! Project paths and pixel buffers.
use crate::text;
use vstd::prelude::*;

verus! {

/// The separator of Windows paths.
pub const BACKSLASH: char = '\\';

/// The directory of the project and the separator of its platform's paths.
#[derive(Debug)]
pub struct ProjectDir {
    pub root: String,
    pub separator: char,
}

/// The character separates the parts of a path; on Windows a slash does so too.
pub open spec fn is_separator(c: char, separator: char) -> bool {
    c == separator || (separator == BACKSLASH && c == '/')
}

/// The text begins with the letter of a drive.
pub open spec fn begins_with_drive(text: Seq<char>) -> bool {
    &&& text.len() >= 2
    &&& 'a' <= text[0] <= 'z' || 'A' <= text[0] <= 'Z'
    &&& text[1] == ':'
}

/// The text begins with a separator.
pub open spec fn begins_with_root(text: Seq<char>, separator: char) -> bool {
    text.len() > 0 && is_separator(text[0], separator)
}

/// The text begins with two separators, as the name of a network share does.
pub open spec fn begins_with_share(text: Seq<char>, separator: char) -> bool {
    text.len() > 1 && is_separator(text[0], separator) && is_separator(text[1], separator)
}

/// The text begins with two backslashes and a question mark, as Windows paths do that are
/// joined by rules of their own.
pub open spec fn is_verbatim(text: Seq<char>) -> bool {
    text.len() > 2 && text[0] == BACKSLASH && text[1] == BACKSLASH && text[2] == '?'
}

/// The part can be joined to the path. On Windows the path is not verbatim, and a root is
/// not joined to the name of a network share, nor such a name to anything.
pub open spec fn can_join(path: Seq<char>, separator: char, part: Seq<char>) -> bool {
    separator == BACKSLASH ==> {
        &&& !is_verbatim(path)
        &&& !begins_with_share(part, separator)
        &&& begins_with_root(part, separator) ==> !begins_with_share(path, separator)
    }
}

/// A part of a Windows path that names neither a drive nor a root.
pub open spec fn is_relative(part: Seq<char>) -> bool {
    !begins_with_root(part, BACKSLASH) && !begins_with_drive(part)
}

impl ProjectDir {
    /// Paths can be made of the directory.
    pub open spec fn is_usable(self) -> bool {
        self.separator == BACKSLASH ==> !is_verbatim(self.root@)
    }

    /// A file of this name can be looked for below the directory.
    pub open spec fn can_hold(self, filename: Seq<char>) -> bool {
        self.separator == BACKSLASH ==> {
            &&& !begins_with_share(filename, self.separator)
            &&& begins_with_root(filename, self.separator) ==> !begins_with_share(
                self.root@,
                self.separator,
            )
        }
    }

    /// Whether paths can be made of the directory.
    pub fn usable(&self) -> (r: bool)
        ensures
            r == self.is_usable(),
    {
        let root: Vec<char> = text::to_chars(self.root.as_str());
        self.separator != BACKSLASH || !(root.len() > 2 && root[0] == BACKSLASH && root[1]
            == BACKSLASH && root[2] == '?')
    }
}

fn drive_letter(c: char) -> (r: bool)
    ensures
        r == ('a' <= c <= 'z' || 'A' <= c <= 'Z'),
{
    ('a' <= c && c <= 'z') || ('A' <= c && c <= 'Z')
}

/// The letter of the drive that a text begins with, and the colon behind it.
pub open spec fn drive_of(text: Seq<char>) -> Seq<char> {
    if begins_with_drive(text) {
        text.take(2)
    } else {
        Seq::empty()
    }
}

/// The path that one more part leads to. A part that begins with the separator is a path
/// of its own. On Windows one that names a drive is too, one that begins with a separator
/// stays on the drive of the path, and behind the letter of a drive alone no separator
/// comes.
pub open spec fn joined(path: Seq<char>, separator: char, part: Seq<char>) -> Seq<char> {
    let windows = separator == BACKSLASH;
    if windows && begins_with_drive(part) {
        part
    } else if begins_with_root(part, separator) {
        if windows {
            drive_of(path) + part
        } else {
            part
        }
    } else if path.len() == 0 || is_separator(path.last(), separator) || (windows
        && begins_with_drive(path) && path.len() == 2) {
        path + part
    } else {
        path.push(separator) + part
    }
}

/// A path that was made of a usable one by joining a name can be joined to again.
proof fn lemma_joined_is_plain(path: Seq<char>, separator: char, part: Seq<char>)
    requires
        separator == BACKSLASH ==> !is_verbatim(path) && is_relative(part),
        part.len() >= 3,
        part[0] != '?',
    ensures
        separator == BACKSLASH ==> {
            let whole = joined(path, separator, part);
            !is_verbatim(whole) && (begins_with_share(whole, separator) ==> begins_with_share(
                path,
                separator,
            ))
        },
{
    let whole = joined(path, separator, part);
    if separator == BACKSLASH {
        assert(whole.len() >= 3);
        if path.len() >= 3 {
            assert(whole[0] == path[0] && whole[1] == path[1] && whole[2] == path[2]);
        } else if path.len() == 2 {
            assert(whole[0] == path[0] && whole[1] == path[1]);
            assert(whole[2] == part[0] || whole[2] == separator);
        } else if path.len() == 1 {
            assert(whole[0] == path[0]);
            if is_separator(path[0], separator) {
                assert(whole[1] == part[0]);
            }
        } else {
            assert(whole =~= part);
        }
    }
}

fn separates(c: char, separator: char) -> (r: bool)
    ensures
        r == is_separator(c, separator),
{
    c == separator || (separator == BACKSLASH && c == '/')
}

fn names_drive(text: &Vec<char>) -> (r: bool)
    ensures
        r == begins_with_drive(text@),
{
    text.len() >= 2 && drive_letter(text[0]) && text[1] == ':'
}

fn append(text: &mut String, more: &str)
    ensures
        final(text)@ == old(text)@ + more@,
{
    let chars: Vec<char> = text::to_chars(more);
    let mut i: usize = 0;
    assert(text@ =~= old(text)@ + chars@.take(0));
    while i < chars.len()
        invariant
            i <= chars@.len(),
            text@ == old(text)@ + chars@.take(i as int),
        decreases chars.len() - i,
    {
        text.push(chars[i]);
        assert(chars@.take(i + 1) =~= chars@.take(i as int).push(chars@[i as int]));
        assert(text@ =~= old(text)@ + chars@.take(i + 1));
        i = i + 1;
    }
    assert(chars@.take(chars@.len() as int) =~= chars@);
}

/// Joins one more part to a path.
pub fn join_path(path: &str, separator: char, part: &str) -> (r: String)
    requires
        can_join(path@, separator, part@),
    ensures
        r@ == joined(path@, separator, part@),
{
    let before: Vec<char> = text::to_chars(path);
    let more: Vec<char> = text::to_chars(part);
    let windows: bool = separator == BACKSLASH;
    let drive: bool = windows && names_drive(&before);
    let mut r: String = String::new();
    if windows && names_drive(&more) {
    } else if more.len() > 0 && separates(more[0], separator) {
        if drive {
            r.push(before[0]);
            r.push(before[1]);
            assert(r@ =~= drive_of(path@));
        }
    } else {
        append(&mut r, path);
        assert(r@ =~= path@);
        if before.len() > 0 && !separates(before[before.len() - 1], separator) && !(drive
            && before.len() == 2) {
            r.push(separator);
        }
    }
    append(&mut r, part);
    assert(r@ =~= joined(path@, separator, part@));
    r
}

/// Path of an icon template.
pub fn get_secure_template_path(dir: &ProjectDir, filename: &str) -> (r: String)
    requires
        dir.is_usable(),
        dir.can_hold(filename@),
    ensures
        r@ == joined(
            joined(
                joined(dir.root@, dir.separator, "templates"@),
                dir.separator,
                "icons"@,
            ),
            dir.separator,
            filename@,
        ),
{
    proof {
        reveal_strlit("templates");
        reveal_strlit("icons");
        lemma_joined_is_plain(dir.root@, dir.separator, "templates"@);
        lemma_joined_is_plain(
            joined(dir.root@, dir.separator, "templates"@),
            dir.separator,
            "icons"@,
        );
    }
    let templates: String = join_path(dir.root.as_str(), dir.separator, "templates");
    let icons: String = join_path(templates.as_str(), dir.separator, "icons");
    join_path(icons.as_str(), dir.separator, filename)
}

/// Directory of the monster name templates.
pub fn get_monster_name_template_dir(dir: &ProjectDir) -> (r: String)
    requires
        dir.is_usable(),
    ensures
        r@ == joined(
            joined(dir.root@, dir.separator, "templates"@),
            dir.separator,
            "monster_names"@,
        ),
{
    proof {
        reveal_strlit("templates");
        reveal_strlit("monster_names");
        lemma_joined_is_plain(dir.root@, dir.separator, "templates"@);
    }
    let templates: String = join_path(dir.root.as_str(), dir.separator, "templates");
    join_path(templates.as_str(), dir.separator, "monster_names")
}

/// Directory that candidate boxes are saved to.
pub fn get_debug_crop_dir(dir: &ProjectDir) -> (r: String)
    requires
        dir.is_usable(),
    ensures
        r@ == joined(dir.root@, dir.separator, "DEBUG_MONSTER_CROPS"@),
{
    proof {
        reveal_strlit("DEBUG_MONSTER_CROPS");
    }
    join_path(dir.root.as_str(), dir.separator, "DEBUG_MONSTER_CROPS")
}

/// Directory of the digit templates.
pub fn get_digit_template_dir(dir: &ProjectDir) -> (r: String)
    requires
        dir.is_usable(),
    ensures
        r@ == joined(
            joined(dir.root@, dir.separator, "templates"@),
            dir.separator,
            "digits"@,
        ),
{
    proof {
        reveal_strlit("templates");
        reveal_strlit("digits");
        lemma_joined_is_plain(dir.root@, dir.separator, "templates"@);
    }
    let templates: String = join_path(dir.root.as_str(), dir.separator, "templates");
    join_path(templates.as_str(), dir.separator, "digits")
}

/// File that the position area is saved to.
pub fn get_debug_position_roi_path(dir: &ProjectDir) -> (r: String)
    requires
        dir.is_usable(),
    ensures
        r@ == joined(dir.root@, dir.separator, "DEBUG_POSITION_ROI.png"@),
{
    proof {
        reveal_strlit("DEBUG_POSITION_ROI.png");
    }
    join_path(dir.root.as_str(), dir.separator, "DEBUG_POSITION_ROI.png")
}

/// Directory that single digits are saved to.
pub fn get_debug_digit_crop_dir(dir: &ProjectDir) -> (r: String)
    requires
        dir.is_usable(),
    ensures
        r@ == joined(dir.root@, dir.separator, "DEBUG_DIGIT_CROPS"@),
{
    proof {
        reveal_strlit("DEBUG_DIGIT_CROPS");
    }
    join_path(dir.root.as_str(), dir.separator, "DEBUG_DIGIT_CROPS")
}

/// Directory of the map name templates.
pub fn get_map_name_template_dir(dir: &ProjectDir) -> (r: String)
    requires
        dir.is_usable(),
    ensures
        r@ == joined(
            joined(dir.root@, dir.separator, "templates"@),
            dir.separator,
            "map_names"@,
        ),
{
    proof {
        reveal_strlit("templates");
        reveal_strlit("map_names");
        lemma_joined_is_plain(dir.root@, dir.separator, "templates"@);
    }
    let templates: String = join_path(dir.root.as_str(), dir.separator, "templates");
    join_path(templates.as_str(), dir.separator, "map_names")
}

/// File that the map plaque is saved to.
pub fn get_debug_map_roi_path(dir: &ProjectDir) -> (r: String)
    requires
        dir.is_usable(),
    ensures
        r@ == joined(dir.root@, dir.separator, "DEBUG_MAP_ROI.png"@),
{
    proof {
        reveal_strlit("DEBUG_MAP_ROI.png");
    }
    join_path(dir.root.as_str(), dir.separator, "DEBUG_MAP_ROI.png")
}

/// An image of three bytes a pixel, red first, row by row.
#[derive(Debug)]
pub struct RgbImage {
    pub width: u32,
    pub height: u32,
    pub pixels: Vec<u8>,
}

impl RgbImage {
    /// There are bytes for every pixel.
    pub open spec fn is_complete(self) -> bool {
        3 * (self.width * self.height) <= self.pixels@.len()
    }
}

/// `image::RgbImage::from_raw` accepts a buffer that holds at least three bytes for every
/// pixel and keeps it as it is; `image::RgbImage::into_raw` hands it back. The bytes of
/// one row must be countable as a `usize`, also where there are no rows.
#[verifier::external_body]
fn checked_rgb_buffer(width: u32, height: u32, buffer: Vec<u8>) -> (r: Option<Vec<u8>>)
    ensures
        match r {
            Some(kept) => kept@ == buffer@ && 3 * (width * height) <= buffer@.len() && 3 * width
                <= usize::MAX,
            None => 3 * (width * height) > buffer@.len() || 3 * width > usize::MAX,
        },
{
    match image::RgbImage::from_raw(width, height, buffer) {
        Some(img) => Some(img.into_raw()),
        None => None,
    }
}

/// An image over a buffer; `None` when the buffer is too short, or a row too long to count
/// its bytes.
pub fn rgb_image(width: u32, height: u32, buffer: Vec<u8>) -> (r: Option<RgbImage>)
    ensures
        match r {
            Some(img) => img.width == width && img.height == height && img.pixels@ == buffer@
                && img.is_complete() && 3 * width <= usize::MAX,
            None => 3 * (width * height) > buffer@.len() || 3 * width > usize::MAX,
        },
{
    match checked_rgb_buffer(width, height, buffer) {
        Some(pixels) => Some(RgbImage { width, height, pixels }),
        None => None,
    }
}

/// The colours of pixels of four bytes, without the fourth byte of each.
pub open spec fn without_alpha(raw: Seq<u8>) -> Seq<u8> {
    Seq::new(3 * (raw.len() / 4), |i: int| raw[4 * (i / 3) + i % 3])
}

/// The colours of a screenshot.
pub fn rgba_to_rgb(raw_rgba: &[u8], width: u32, height: u32) -> (r: RgbImage)
    requires
        width * height <= raw_rgba@.len() / 4,
        3 * width <= usize::MAX,
    ensures
        r.width == width,
        r.height == height,
        r.pixels@ == without_alpha(raw_rgba@),
        r.is_complete(),
{
    let mut pixels: Vec<u8> = Vec::new();
    let length: usize = raw_rgba.len();
    let total: usize = length / 4;
    let mut k: usize = 0;
    while k < total
        invariant
            k <= total,
            length == raw_rgba@.len(),
            total == length / 4,
            pixels@.len() == 3 * k,
            forall|i: int| 0 <= i < 3 * k ==> pixels@[i] == without_alpha(raw_rgba@)[i],
        decreases total - k,
    {
        pixels.push(raw_rgba[4 * k]);
        pixels.push(raw_rgba[4 * k + 1]);
        pixels.push(raw_rgba[4 * k + 2]);
        assert(3 * k / 3 == k && (3 * k + 1) / 3 == k && (3 * k + 2) / 3 == k);
        k = k + 1;
    }
    assert(pixels@ =~= without_alpha(raw_rgba@));
    rgb_image(width, height, pixels).unwrap()
}

/// The colours of every pixel of four bytes are kept in their order, red first.
pub proof fn law_colours_are_kept_without_alpha(raw: Seq<u8>, pixel: int)
    requires
        0 <= pixel < raw.len() / 4,
    ensures
        without_alpha(raw).len() == 3 * (raw.len() / 4),
        without_alpha(raw)[3 * pixel] == raw[4 * pixel],
        without_alpha(raw)[3 * pixel + 1] == raw[4 * pixel + 1],
        without_alpha(raw)[3 * pixel + 2] == raw[4 * pixel + 2],
{
    assert((3 * pixel) / 3 == pixel && (3 * pixel + 1) / 3 == pixel && (3 * pixel + 2) / 3
        == pixel);
}

/// A part that is no path of its own follows the path behind exactly one separator, also
/// where the path ends with one, and follows an empty path at once. A part that begins with
/// a separator takes the place of the path, but for the drive of a Windows path.
pub proof fn law_parts_follow_the_path(path: Seq<char>, part: Seq<char>)
    ensures
        part.len() == 0 || part[0] != '/' ==> ({
            let whole = joined(path, '/', part);
            &&& path.len() == 0 ==> whole == part
            &&& path.len() > 0 && path.last() == '/' ==> whole == path + part
            &&& path.len() > 0 && path.last() != '/' ==> whole == path + seq!['/'] + part
        }),
        part.len() > 0 && part[0] == '/' ==> joined(path, '/', part) == part,
        is_relative(part) && path.len() > 0 && path.last() != BACKSLASH && path.last() != '/'
            && path.last() != ':' ==> joined(path, BACKSLASH, part) == path + seq![BACKSLASH]
            + part,
        is_relative(part) && path.len() > 0 && (path.last() == BACKSLASH || path.last() == '/')
            ==> joined(path, BACKSLASH, part) == path + part,
{
    if path.len() == 0 {
        assert(path + part =~= part);
    }
    assert(path.push('/') =~= path + seq!['/']);
    assert(path.push(BACKSLASH) =~= path + seq![BACKSLASH]);
}

} // verus!
