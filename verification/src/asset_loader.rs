//! The buttons of the game and where they are on the screen.
use crate::score::Score;
use crate::screen;
use crate::screen::{ScreenScale, WindowFrame};
use crate::geometry;
use crate::text;
use crate::util;
use crate::util::ProjectDir;
use vstd::prelude::*;

verus! {

/// Encoding of 55 hundredths, the confidence that a button has to reach.
pub const BUTTON_CONFIDENCE_BITS: u32 = 1057803469;

/// A button: its icon, and where it is clicked once that is known.
#[derive(Debug, Clone)]
pub struct IconButton {
    pub name: String,
    pub template_path: String,
    pub min_confidence: Score,
    pub screen_x: Option<i32>,
    pub screen_y: Option<i32>,
}

/// Buttons by key.
#[derive(Debug)]
pub struct ButtonManifest {
    pub buttons: Vec<(String, IconButton)>,
}

/// Path of the icon of a button.
pub open spec fn icon_path(dir: ProjectDir, file_name: Seq<char>) -> Seq<char> {
    util::joined(
        util::joined(
            util::joined(dir.root@, dir.separator, "templates"@),
            dir.separator,
            "icons"@,
        ),
        dir.separator,
        file_name,
    )
}

/// A button that has not been located, under its key.
pub open spec fn is_unlocated(
    entry: (String, IconButton),
    key: Seq<char>,
    name: Seq<char>,
    path: Seq<char>,
) -> bool {
    &&& entry.0@ == key
    &&& entry.1.name@ == name
    &&& entry.1.template_path@ == path
    &&& entry.1.min_confidence.bits == BUTTON_CONFIDENCE_BITS
    &&& entry.1.screen_x is None
    &&& entry.1.screen_y is None
}

impl ButtonManifest {
    /// No key stands for two buttons.
    pub open spec fn has_distinct_keys(self) -> bool {
        forall|i: int, j: int|
            0 <= i < j < self.buttons@.len() ==> (#[trigger] self.buttons@[i]).0@ != (
            #[trigger] self.buttons@[j]).0@
    }

    /// The button under a key, the first one where there are several.
    pub fn get(&self, key: &str) -> (found: Option<&IconButton>)
        ensures
            match found {
                Some(b) => {
                    let i = first_with_key(self.buttons@, key@);
                    i < self.buttons@.len() && *b == self.buttons@[i as int].1
                },
                None => first_with_key(self.buttons@, key@) == self.buttons@.len(),
            },
    {
        let mut i: usize = 0;
        while i < self.buttons.len()
            invariant
                i <= self.buttons@.len(),
                forall|j: int| 0 <= j < i ==> (#[trigger] self.buttons@[j]).0@ != key@,
            decreases self.buttons.len() - i,
        {
            if text::same_text(self.buttons[i].0.as_str(), key) {
                proof {
                    lemma_first_with_key(self.buttons@, key@, i as nat);
                }
                return Some(&self.buttons[i].1);
            }
            i = i + 1;
        }
        proof {
            lemma_first_with_key(self.buttons@, key@, self.buttons@.len());
        }
        None
    }

    /// Where the button under `key` is clicked; `None` for a button that is missing or
    /// has not been located.
    pub open spec fn point_of(self, key: Seq<char>) -> Option<(i32, i32)> {
        let i = first_with_key(self.buttons@, key);
        if i < self.buttons@.len() {
            match (self.buttons@[i as int].1.screen_x, self.buttons@[i as int].1.screen_y) {
                (Some(x), Some(y)) => Some((x, y)),
                _ => None,
            }
        } else {
            None
        }
    }

    /// Where the button under a key is clicked.
    pub fn click_point(&self, key: &str) -> (p: Option<(i32, i32)>)
        ensures
            p == self.point_of(key@),
    {
        match self.get(key) {
            Some(b) => match (b.screen_x, b.screen_y) {
                (Some(x), Some(y)) => Some((x, y)),
                _ => None,
            },
            None => None,
        }
    }
}

/// Place of the first button under `key`, and the length without one.
pub open spec fn first_with_key(buttons: Seq<(String, IconButton)>, key: Seq<char>) -> nat
    decreases buttons.len(),
{
    if buttons.len() == 0 || buttons.first().0@ == key {
        0
    } else {
        1 + first_with_key(buttons.drop_first(), key)
    }
}

proof fn lemma_first_with_key(buttons: Seq<(String, IconButton)>, key: Seq<char>, i: nat)
    requires
        i <= buttons.len(),
        forall|j: int| 0 <= j < i ==> (#[trigger] buttons[j]).0@ != key,
        i < buttons.len() ==> buttons[i as int].0@ == key,
    ensures
        first_with_key(buttons, key) == i,
    decreases buttons.len(),
{
    if i > 0 {
        assert(buttons[0].0@ != key);
        let rest = buttons.drop_first();
        assert forall|j: int| 0 <= j < i - 1 implies (#[trigger] rest[j]).0@ != key by {
            assert(rest[j] == buttons[j + 1]);
        }
        lemma_first_with_key(rest, key, (i - 1) as nat);
    }
}

fn unlocated(key: &str, name: &str, template_path: String) -> (entry: (String, IconButton))
    ensures
        is_unlocated(entry, key@, name@, template_path@),
{
    (
        text::from_chars(text::to_chars(key).as_slice()),
        IconButton {
            name: text::from_chars(text::to_chars(name).as_slice()),
            template_path,
            min_confidence: Score { bits: BUTTON_CONFIDENCE_BITS },
            screen_x: None,
            screen_y: None,
        },
    )
}

/// The buttons that are needed: the attack and the pick-up button.
pub fn create_button_manifest(dir: &ProjectDir) -> (r: ButtonManifest)
    requires
        dir.is_usable(),
    ensures
        r.buttons@.len() == 2,
        is_unlocated(
            r.buttons@[0],
            "attack"@,
            "大剑普通攻击"@,
            icon_path(*dir, "attack.png"@),
        ),
        is_unlocated(r.buttons@[1], "pick_up"@, "自动拾取"@, icon_path(*dir, "pick_up.png"@)),
        r.has_distinct_keys(),
{
    let mut buttons: Vec<(String, IconButton)> = Vec::new();
    proof {
        reveal_strlit("attack.png");
        reveal_strlit("pick_up.png");
    }
    buttons.push(
        unlocated(
            "attack",
            "大剑普通攻击",
            util::get_secure_template_path(dir, "attack.png"),
        ),
    );
    buttons.push(
        unlocated("pick_up", "自动拾取", util::get_secure_template_path(dir, "pick_up.png")),
    );
    proof {
        reveal_strlit("attack");
        reveal_strlit("pick_up");
        assert("attack"@.len() != "pick_up"@.len());
    }
    ButtonManifest { buttons }
}

/// The point on the screen that shows a pixel.
pub open spec fn shown_at(window: WindowFrame, scale: ScreenScale, pixel: (u32, u32)) -> (int, int) {
    (
        window.x + screen::logical_offset(pixel.0 as nat, scale.horizontal()),
        window.y + screen::logical_offset(pixel.1 as nat, scale.vertical()),
    )
}

/// A button was found at a point that screen coordinates reach.
pub open spec fn is_locatable(
    window: WindowFrame,
    scale: ScreenScale,
    pixel: Option<(u32, u32)>,
) -> bool {
    match pixel {
        Some(p) => {
            let at = shown_at(window, scale, p);
            geometry::fits_i32(at.0) && geometry::fits_i32(at.1)
        },
        None => false,
    }
}

/// `after` is the button `before`, located where `pixel` is shown.
pub open spec fn is_located(
    after: (String, IconButton),
    before: (String, IconButton),
    window: WindowFrame,
    scale: ScreenScale,
    pixel: (u32, u32),
) -> bool {
    let at = shown_at(window, scale, pixel);
    &&& after.0@ == before.0@
    &&& after.1.name@ == before.1.name@
    &&& after.1.template_path@ == before.1.template_path@
    &&& after.1.min_confidence == before.1.min_confidence
    &&& after.1.screen_x == Some(at.0 as i32)
    &&& after.1.screen_y == Some(at.1 as i32)
}

/// Locates the buttons. `found` holds, for each of them, the pixel of the screenshot at
/// which its icon was found. Without every one of them there is no result.
pub fn load_and_cache_assets(
    manifest: ButtonManifest,
    window: &WindowFrame,
    scale: &ScreenScale,
    found: &[Option<(u32, u32)>],
) -> (r: Option<ButtonManifest>)
    requires
        found@.len() == manifest.buttons@.len(),
    ensures
        match r {
            Some(located) => {
                &&& located.buttons@.len() == manifest.buttons@.len()
                &&& forall|i: int|
                    0 <= i < found@.len() ==> (#[trigger] found@[i]) is Some && is_locatable(
                        *window,
                        *scale,
                        found@[i],
                    ) && is_located(
                        located.buttons@[i],
                        manifest.buttons@[i],
                        *window,
                        *scale,
                        found@[i]->0,
                    )
            },
            None => exists|i: int|
                0 <= i < found@.len() && !is_locatable(*window, *scale, #[trigger] found@[i]),
        },
{
    let mut buttons: Vec<(String, IconButton)> = Vec::new();
    let mut i: usize = 0;
    while i < found.len()
        invariant
            i <= found@.len(),
            found@.len() == manifest.buttons@.len(),
            buttons@.len() == i,
            forall|j: int|
                0 <= j < i ==> (#[trigger] found@[j]) is Some && is_locatable(
                    *window,
                    *scale,
                    found@[j],
                ) && is_located(
                    buttons@[j],
                    manifest.buttons@[j],
                    *window,
                    *scale,
                    found@[j]->0,
                ),
        decreases found.len() - i,
    {
        let entry: &(String, IconButton) = &manifest.buttons[i];
        let point: Option<(i32, i32)> = match found[i] {
            Some(p) => screen::screen_point(window, scale, p.0, p.1),
            None => None,
        };
        match point {
            Some(p) => {
                let ghost before = buttons@;
                buttons.push(
                    (
                        entry.0.clone(),
                        IconButton {
                            name: entry.1.name.clone(),
                            template_path: entry.1.template_path.clone(),
                            min_confidence: entry.1.min_confidence,
                            screen_x: Some(p.0),
                            screen_y: Some(p.1),
                        },
                    ),
                );
                assert forall|j: int| 0 <= j < i implies #[trigger] buttons@[j] == before[j] by {}
            },
            None => {
                assert(!is_locatable(*window, *scale, found@[i as int]));
                return None;
            },
        }
        i = i + 1;
    }
    Some(ButtonManifest { buttons })
}

/// Locating the buttons keeps their keys apart, and every button can then be clicked at
/// the point that shows its icon.
pub proof fn law_located_buttons_can_be_clicked(
    located: ButtonManifest,
    manifest: ButtonManifest,
    window: WindowFrame,
    scale: ScreenScale,
    pixels: Seq<(u32, u32)>,
    i: int,
)
    requires
        manifest.has_distinct_keys(),
        located.buttons@.len() == manifest.buttons@.len() == pixels.len(),
        forall|k: int|
            0 <= k < pixels.len() ==> is_located(
                #[trigger] located.buttons@[k],
                manifest.buttons@[k],
                window,
                scale,
                pixels[k],
            ),
        0 <= i < pixels.len(),
    ensures
        located.has_distinct_keys(),
        located.point_of(manifest.buttons@[i].0@) == Some(
            (
                shown_at(window, scale, pixels[i]).0 as i32,
                shown_at(window, scale, pixels[i]).1 as i32,
            ),
        ),
{
    assert forall|k: int, m: int| 0 <= k < m < located.buttons@.len() implies (
    #[trigger] located.buttons@[k]).0@ != (#[trigger] located.buttons@[m]).0@ by {
        assert(manifest.buttons@[k].0@ != manifest.buttons@[m].0@);
    }
    let key = manifest.buttons@[i].0@;
    assert(located.buttons@[i].0@ == key);
    lemma_first_with_key(located.buttons@, key, i as nat);
}

/// A button is clicked where the first one under its key was located: there is a point
/// exactly when such a button exists and both its coordinates are known.
pub proof fn law_buttons_are_clicked_where_they_are(
    manifest: ButtonManifest,
    key: Seq<char>,
    i: int,
)
    requires
        0 <= i < manifest.buttons@.len(),
        manifest.buttons@[i].0@ == key,
        forall|j: int| 0 <= j < i ==> (#[trigger] manifest.buttons@[j]).0@ != key,
    ensures
        match manifest.point_of(key) {
            Some(p) => manifest.buttons@[i].1.screen_x == Some(p.0)
                && manifest.buttons@[i].1.screen_y == Some(p.1),
            None => manifest.buttons@[i].1.screen_x is None
                || manifest.buttons@[i].1.screen_y is None,
        },
{
    lemma_first_with_key(manifest.buttons@, key, i as nat);
}

/// A key that no button has is not clicked.
pub proof fn law_missing_buttons_are_not_clicked(manifest: ButtonManifest, key: Seq<char>)
    requires
        forall|j: int|
            0 <= j < manifest.buttons@.len() ==> (#[trigger] manifest.buttons@[j]).0@ != key,
    ensures
        manifest.point_of(key) is None,
{
    lemma_first_with_key(manifest.buttons@, key, manifest.buttons@.len());
}

/// A button is clicked as far from the corner of the window as its pixel is from the corner
/// of the screenshot, both counted in pixels of the window.
pub proof fn law_buttons_are_where_their_pixels_are(
    window: WindowFrame,
    scale: ScreenScale,
    pixel: (u32, u32),
    across: nat,
    down: nat,
)
    requires
        pixel.0 < 16777216,
        pixel.1 < 16777216,
        0 < across < 16777216,
        0 < down < 16777216,
        scale.horizontal() == across * screen::SCALE_UNIT,
        scale.vertical() == down * screen::SCALE_UNIT,
    ensures
        shown_at(window, scale, pixel).0 == window.x + pixel.0 as nat / across,
        shown_at(window, scale, pixel).1 == window.y + pixel.1 as nat / down,
{
    screen::law_scaled_windows_divide_their_pixels(1, across, pixel.0 as nat);
    screen::law_scaled_windows_divide_their_pixels(1, down, pixel.1 as nat);
    assert(across * 1 == across && down * 1 == down);
}

} // verus!
