//! The emergency exit: holding the escape key ends the program.
use crate::clock;
use vstd::prelude::*;

verus! {

/// Nanoseconds for which the key has to be held.
pub const QUIT_HOLD_NANOS: u64 = 2000000000;

/// Nanoseconds in a millisecond.
pub const NANOS_PER_MS: u64 = 1000000;

/// Milliseconds between two messages while the key is held.
pub const ANNOUNCE_EVERY_MS: u64 = 500;

/// Milliseconds within which a message is due.
pub const ANNOUNCE_WITHIN_MS: u64 = 20;

/// Since when the key has been held, in nanoseconds.
#[derive(Clone, Copy, Debug, PartialEq, Eq)]
pub struct QuitWatchdog {
    pub pressed_since: Option<u64>,
}

/// What is to be done after a look at the keyboard.
#[derive(Clone, Copy, Debug, PartialEq, Eq, Structural)]
pub enum QuitAction {
    /// Nothing.
    Nothing,
    /// The key has just been pressed.
    Pressed,
    /// The key has been let go.
    Released,
    /// The key is held: for how many nanoseconds, whether that is worth a message, and
    /// whether it is long enough to end the program.
    Held { elapsed: u64, announce: bool, quit: bool },
}

/// What a look at the keyboard at time `now` leads to.
pub open spec fn watch_step(pressed_since: Option<u64>, escape_down: bool, now: u64) -> (
    Option<u64>,
    QuitAction,
) {
    match (escape_down, pressed_since) {
        (true, None) => (Some(now), QuitAction::Pressed),
        (true, Some(since)) => {
            let elapsed = clock::elapsed(since, now);
            (
                pressed_since,
                QuitAction::Held {
                    elapsed: elapsed as u64,
                    announce: elapsed / (NANOS_PER_MS as int) % (ANNOUNCE_EVERY_MS as int)
                        < ANNOUNCE_WITHIN_MS,
                    quit: elapsed >= QUIT_HOLD_NANOS,
                },
            )
        },
        (false, Some(_)) => (None, QuitAction::Released),
        (false, None) => (None, QuitAction::Nothing),
    }
}

impl QuitWatchdog {
    /// A watchdog that has not seen the key.
    pub fn new() -> (r: QuitWatchdog)
        ensures
            r.pressed_since is None,
    {
        QuitWatchdog { pressed_since: None }
    }

    /// Takes a look at the keyboard into account; `now` is in nanoseconds.
    pub fn observe(&mut self, escape_down: bool, now: u64) -> (action: QuitAction)
        ensures
            (final(self).pressed_since, action) == watch_step(
                old(self).pressed_since,
                escape_down,
                now,
            ),
    {
        match (escape_down, self.pressed_since) {
            (true, None) => {
                self.pressed_since = Some(now);
                QuitAction::Pressed
            },
            (true, Some(since)) => {
                let elapsed: u64 = clock::nanos_since(since, now);
                QuitAction::Held {
                    elapsed,
                    announce: elapsed / NANOS_PER_MS % ANNOUNCE_EVERY_MS < ANNOUNCE_WITHIN_MS,
                    quit: elapsed >= QUIT_HOLD_NANOS,
                }
            },
            (false, Some(_)) => {
                self.pressed_since = None;
                QuitAction::Released
            },
            (false, None) => QuitAction::Nothing,
        }
    }
}

/// Since when the key has been held after a number of looks at the keyboard.
pub open spec fn pressed_after(looks: Seq<(bool, u64)>) -> Option<u64>
    decreases looks.len(),
{
    if looks.len() == 0 {
        None
    } else {
        watch_step(pressed_after(looks.drop_last()), looks.last().0, looks.last().1).0
    }
}

/// The last look at the keyboard ends the program.
pub open spec fn quits(looks: Seq<(bool, u64)>) -> bool {
    looks.len() > 0 && match watch_step(
        pressed_after(looks.drop_last()),
        looks.last().0,
        looks.last().1,
    ).1 {
        QuitAction::Held { quit, .. } => quit,
        _ => false,
    }
}

/// The key was down at every look from number `first` on, and not at the one before.
pub open spec fn is_held_from(looks: Seq<(bool, u64)>, first: int) -> bool {
    &&& 0 <= first < looks.len()
    &&& forall|i: int| first <= i < looks.len() ==> (#[trigger] looks[i]).0
    &&& first > 0 ==> !looks[first - 1].0
}

proof fn lemma_pressed_after(looks: Seq<(bool, u64)>)
    ensures
        match pressed_after(looks) {
            Some(since) => exists|first: int| #[trigger]
                is_held_from(looks, first) && looks[first].1 == since,
            None => looks.len() == 0 || !looks.last().0,
        },
    decreases looks.len(),
{
    if looks.len() > 0 {
        let before = looks.drop_last();
        let last = looks.len() - 1;
        lemma_pressed_after(before);
        if looks.last().0 {
            match pressed_after(before) {
                Some(since) => {
                    let first = choose|first: int| #[trigger]
                        is_held_from(before, first) && before[first].1 == since;
                    assert forall|i: int| first <= i < looks.len() implies (
                    #[trigger] looks[i]).0 by {
                        if i < last {
                            assert(before[i] == looks[i]);
                        }
                    }
                    if first > 0 {
                        assert(before[first - 1] == looks[first - 1]);
                    }
                    assert(is_held_from(looks, first));
                    assert(before[first] == looks[first]);
                },
                None => {
                    if before.len() > 0 {
                        assert(before.last() == looks[last - 1]);
                    }
                    assert(is_held_from(looks, last));
                },
            }
        }
    }
}

/// A look at the keyboard ends the program exactly when the key was down at it and at
/// every look before it, back to one that lies long enough in the past, with the key up
/// just before that one.
pub proof fn law_only_a_long_press_quits(looks: Seq<(bool, u64)>)
    ensures
        quits(looks) <==> exists|first: int| #[trigger]
            is_held_from(looks, first) && looks[first].1 + QUIT_HOLD_NANOS <= looks.last().1,
{
    if looks.len() > 0 {
        let before = looks.drop_last();
        let last = looks.len() - 1;
        lemma_pressed_after(looks);
        lemma_pressed_after(before);
        if quits(looks) {
            let first = choose|first: int| #[trigger]
                is_held_from(looks, first) && looks[first].1 == pressed_after(looks)->0;
            assert(looks[first].1 + QUIT_HOLD_NANOS <= looks.last().1);
        }
        if exists|first: int| #[trigger]
            is_held_from(looks, first) && looks[first].1 + QUIT_HOLD_NANOS <= looks.last().1 {
            let first = choose|first: int| #[trigger]
                is_held_from(looks, first) && looks[first].1 + QUIT_HOLD_NANOS <= looks.last().1;
            assert(looks[last].0);
            let since = pressed_after(looks)->0;
            let found = choose|k: int| #[trigger] is_held_from(looks, k) && looks[k].1 == since;
            assert(found == first) by {
                if found < first {
                    assert(looks[first - 1].0);
                }
                if first < found {
                    assert(looks[found - 1].0);
                }
            }
            assert(first < last);
            assert(before.last() == looks[last - 1]);
            assert(looks[last - 1].0);
        }
    }
}

/// While the key is held, every look says how long it has been held, counted from the look
/// that found it pressed. The first 20 milliseconds of every half second are worth a
/// message, and after two seconds the program ends.
pub proof fn law_a_held_key_is_timed(looks: Seq<(bool, u64)>, first: int)
    requires
        is_held_from(looks, first),
        first < looks.len() - 1,
        looks[first].1 <= looks.last().1,
    ensures
        ({
            let action = watch_step(
                pressed_after(looks.drop_last()),
                looks.last().0,
                looks.last().1,
            ).1;
            let nanos = looks.last().1 - looks[first].1;
            action == (QuitAction::Held {
                elapsed: nanos as u64,
                announce: (nanos / 1000000) % 500 < 20,
                quit: nanos >= 2000000000,
            })
        }),
{
    let before = looks.drop_last();
    lemma_pressed_after(before);
    let last = looks.len() - 1;
    assert(before.last() == looks[last - 1]);
    assert(looks[last - 1].0 && looks[last].0);
    let since = pressed_after(before)->0;
    let found = choose|k: int| #[trigger] is_held_from(before, k) && before[k].1 == since;
    if found < first {
        assert(before[first - 1] == looks[first - 1]);
        assert(before[first - 1].0);
    }
    if first < found {
        assert(before[found - 1] == looks[found - 1]);
        assert(looks[found - 1].0);
    }
}

/// A key that is pressed or let go is noticed once, and a key that stays up not at all.
pub proof fn law_presses_and_releases_are_noticed(looks: Seq<(bool, u64)>)
    requires
        looks.len() > 0,
    ensures
        ({
            let action = watch_step(
                pressed_after(looks.drop_last()),
                looks.last().0,
                looks.last().1,
            ).1;
            let last = looks.len() - 1;
            let was_down = last > 0 && looks[last - 1].0;
            &&& action == QuitAction::Pressed <==> looks[last].0 && !was_down
            &&& action == QuitAction::Released <==> !looks[last].0 && was_down
            &&& action == QuitAction::Nothing <==> !looks[last].0 && !was_down
        }),
{
    let before = looks.drop_last();
    lemma_pressed_after(before);
    if before.len() > 0 {
        assert(before.last() == looks[looks.len() - 2]);
        if pressed_after(before) is Some {
            let first = choose|first: int| #[trigger]
                is_held_from(before, first) && before[first].1 == pressed_after(before)->0;
            assert(before[before.len() - 1].0);
        }
    } else if pressed_after(before) is Some {
        let first = choose|first: int| #[trigger]
            is_held_from(before, first) && before[first].1 == pressed_after(before)->0;
    }
}

} // verus!
