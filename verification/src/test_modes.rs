//! Which part of the program runs: everything, or one recognition alone.
use crate::text;
use vstd::prelude::*;

verus! {

/// What a session does.
#[derive(Clone, Copy, Debug, PartialEq, Eq, Structural)]
pub enum TestMode {
    /// Saves the candidate boxes of every frame.
    MonsterCapture,
    /// Shows the monsters that are recognised.
    MonsterVerify,
    /// Shows the items that are recognised.
    Item,
    /// Shows the position that is read.
    Position,
    /// Shows the name of the map that is read.
    MapName,
    /// Runs everything.
    Full,
    /// Runs everything, after a warning that the wish is not known.
    UnknownThenFull,
}

/// The mode that a wish asks for; without a wish everything runs.
pub open spec fn mode_of(wish: Option<Seq<char>>) -> TestMode {
    match wish {
        None => TestMode::Full,
        Some(name) => if name == "monster_capture"@ {
            TestMode::MonsterCapture
        } else if name == "monster_verify"@ {
            TestMode::MonsterVerify
        } else if name == "item"@ {
            TestMode::Item
        } else if name == "position"@ {
            TestMode::Position
        } else if name == "map"@ {
            TestMode::MapName
        } else {
            TestMode::UnknownThenFull
        },
    }
}

/// The mode that a wish asks for.
pub fn select_mode(wish: Option<&str>) -> (mode: TestMode)
    ensures
        mode == mode_of(
            match wish {
                Some(name) => Some(name@),
                None => None,
            },
        ),
{
    match wish {
        None => TestMode::Full,
        Some(name) => if text::same_text(name, "monster_capture") {
            TestMode::MonsterCapture
        } else if text::same_text(name, "monster_verify") {
            TestMode::MonsterVerify
        } else if text::same_text(name, "item") {
            TestMode::Item
        } else if text::same_text(name, "position") {
            TestMode::Position
        } else if text::same_text(name, "map") {
            TestMode::MapName
        } else {
            TestMode::UnknownThenFull
        },
    }
}

/// Whether a mode can do its work; three of them need the recogniser.
pub fn can_run(mode: TestMode, has_recognizer: bool) -> (r: bool)
    ensures
        r == (has_recognizer || !(mode is MonsterVerify || mode is Item || mode is MapName)),
{
    match mode {
        TestMode::MonsterVerify => has_recognizer,
        TestMode::Item => has_recognizer,
        TestMode::MapName => has_recognizer,
        _ => true,
    }
}

/// Each recognition runs alone exactly when its word is asked for, everything runs without
/// a wish, and any other word is not known.
pub proof fn law_each_mode_has_its_word(name: Seq<char>)
    ensures
        mode_of(None) == TestMode::Full,
        mode_of(Some(name)) == TestMode::MonsterCapture <==> name == "monster_capture"@,
        mode_of(Some(name)) == TestMode::MonsterVerify <==> name == "monster_verify"@,
        mode_of(Some(name)) == TestMode::Item <==> name == "item"@,
        mode_of(Some(name)) == TestMode::Position <==> name == "position"@,
        mode_of(Some(name)) == TestMode::MapName <==> name == "map"@,
        mode_of(Some(name)) != TestMode::Full,
{
    reveal_strlit("monster_capture");
    reveal_strlit("monster_verify");
    reveal_strlit("item");
    reveal_strlit("position");
    reveal_strlit("map");
    assert("monster_capture"@.len() == 15 && "monster_verify"@.len() == 14);
    assert("item"@.len() == 4 && "position"@.len() == 8 && "map"@.len() == 3);
}

} // verus!
