//! The start of a session: the window is found, the buttons are located on an untouched
//! picture of it, and only then does a click give it the focus.
use crate::find_window;
use crate::find_window::{require_game_window, WindowSearch};
use crate::geometry;
use crate::screen;
use crate::screen::{window_center, WindowFrame};
use vstd::prelude::*;

verus! {

/// Milliseconds that the window takes to get the focus.
pub const FOCUS_WAIT_MS: u64 = 300;

/// Exit code of a program that cannot start.
pub const FAILURE_CODE: i32 = 1;

/// How far the start has come.
#[derive(Clone, Copy, Debug, PartialEq, Eq, Structural)]
pub enum StartStage {
    /// The window is looked for; searches are counted from one.
    Searching { attempt: u32 },
    /// The buttons are looked for.
    Locating,
    /// The window gets the focus.
    Focusing,
    /// The configuration, the templates and the recogniser are loaded.
    Loading,
    /// The program ends.
    Ended,
}

/// What was observed.
#[derive(Clone, Copy, Debug, PartialEq, Eq)]
pub enum StartEvent {
    /// The window was looked for; its place in the list of windows, if it is there.
    Searched { found: Option<usize> },
    /// Every button was located; where the window is.
    Located { window: WindowFrame },
    /// Some button was not located.
    ButtonsMissing,
    /// The click was made.
    Clicked,
}

/// What is to be done.
#[derive(Clone, Copy, Debug, PartialEq, Eq)]
pub enum StartAction {
    /// Wait, then look for the window.
    SearchAgain { wait_ms: u64 },
    /// Locate the buttons in a screenshot of this window, without the mouse.
    LocateButtons { window: usize },
    /// Click at the point and wait.
    Click { at: (i32, i32), wait_ms: u64 },
    /// Load the configuration, the templates and the recogniser.
    Load,
    /// Wait, then end the program with this exit code.
    Exit { wait_ms: u64, code: i32 },
    /// Nothing.
    Nothing,
}

/// How a start begins: the window is about to be looked for.
pub open spec fn first_stage() -> StartStage {
    StartStage::Searching { attempt: 1 }
}

/// Whether the middle of the window that an event reports is a point of the screen.
pub open spec fn has_middle(event: StartEvent) -> bool {
    match event {
        StartEvent::Located { window } => {
            let middle = screen::middle(window);
            geometry::fits_i32(middle.0) && geometry::fits_i32(middle.1)
        },
        _ => true,
    }
}

/// How a start goes on. An event that a stage does not wait for changes nothing.
pub open spec fn start_step(stage: StartStage, event: StartEvent) -> (StartStage, StartAction) {
    match (stage, event) {
        (StartStage::Searching { attempt }, StartEvent::Searched { found }) => match found {
            Some(i) => (StartStage::Locating, StartAction::LocateButtons { window: i }),
            None => if attempt < find_window::MAX_ATTEMPTS {
                (
                    StartStage::Searching { attempt: (attempt + 1) as u32 },
                    StartAction::SearchAgain { wait_ms: find_window::RETRY_WAIT_MS },
                )
            } else {
                (
                    StartStage::Ended,
                    StartAction::Exit { wait_ms: find_window::RETRY_WAIT_MS, code: FAILURE_CODE },
                )
            },
        },
        (StartStage::Locating, StartEvent::Located { window }) => {
            let middle = screen::middle(window);
            (
                StartStage::Focusing,
                StartAction::Click {
                    at: (middle.0 as i32, middle.1 as i32),
                    wait_ms: FOCUS_WAIT_MS,
                },
            )
        },
        (StartStage::Locating, StartEvent::ButtonsMissing) => (
            StartStage::Ended,
            StartAction::Exit { wait_ms: 0, code: FAILURE_CODE },
        ),
        (StartStage::Focusing, StartEvent::Clicked) => (StartStage::Loading, StartAction::Load),
        _ => (stage, StartAction::Nothing),
    }
}

/// The stage in which a start begins.
pub fn begin() -> (r: StartStage)
    ensures
        r == first_stage(),
{
    StartStage::Searching { attempt: 1 }
}

/// How a start goes on.
pub fn next_step(stage: StartStage, event: StartEvent) -> (r: (StartStage, StartAction))
    requires
        has_middle(event),
    ensures
        r == start_step(stage, event),
{
    match (stage, event) {
        (StartStage::Searching { attempt }, StartEvent::Searched { found }) => {
            match require_game_window(attempt, found) {
                WindowSearch::Found(i) => (
                    StartStage::Locating,
                    StartAction::LocateButtons { window: i },
                ),
                WindowSearch::RetryAfter(wait_ms) => (
                    StartStage::Searching { attempt: attempt + 1 },
                    StartAction::SearchAgain { wait_ms },
                ),
                WindowSearch::GiveUpAfter(wait_ms) => (
                    StartStage::Ended,
                    StartAction::Exit { wait_ms, code: FAILURE_CODE },
                ),
            }
        },
        (StartStage::Locating, StartEvent::Located { window }) => {
            match window_center(&window) {
                Some(at) => (
                    StartStage::Focusing,
                    StartAction::Click { at, wait_ms: FOCUS_WAIT_MS },
                ),
                None => (stage, StartAction::Nothing),
            }
        },
        (StartStage::Locating, StartEvent::ButtonsMissing) => (
            StartStage::Ended,
            StartAction::Exit { wait_ms: 0, code: FAILURE_CODE },
        ),
        (StartStage::Focusing, StartEvent::Clicked) => (StartStage::Loading, StartAction::Load),
        _ => (stage, StartAction::Nothing),
    }
}

/// The stage after a number of events.
pub open spec fn stage_after(events: Seq<StartEvent>) -> StartStage
    decreases events.len(),
{
    if events.len() == 0 {
        first_stage()
    } else {
        start_step(stage_after(events.drop_last()), events.last()).0
    }
}

/// What event number `i` leads to.
pub open spec fn action_at(events: Seq<StartEvent>, i: int) -> StartAction {
    start_step(stage_after(events.take(i)), events[i]).1
}

/// Event number `i` had the buttons looked for.
pub open spec fn asks_for_buttons(events: Seq<StartEvent>, i: int) -> bool {
    0 <= i < events.len() && action_at(events, i) is LocateButtons
}

/// Event number `i` said that every button was located, when that was waited for.
pub open spec fn has_located(events: Seq<StartEvent>, i: int) -> bool {
    &&& 0 <= i < events.len()
    &&& stage_after(events.take(i)) is Locating
    &&& events[i] is Located
}

/// Event number `i` led to a click.
pub open spec fn clicks(events: Seq<StartEvent>, i: int) -> bool {
    0 <= i < events.len() && action_at(events, i) is Click
}

/// Event number `i` led to the end of the program.
pub open spec fn exits(events: Seq<StartEvent>, i: int) -> bool {
    0 <= i < events.len() && action_at(events, i) is Exit
}

/// Each event belongs to the longer run as it belonged to the shorter one.
proof fn lemma_earlier_events(events: Seq<StartEvent>, n: int, i: int)
    requires
        0 <= i < n <= events.len(),
    ensures
        asks_for_buttons(events.take(n), i) == asks_for_buttons(events, i),
        clicks(events.take(n), i) == clicks(events, i),
        exits(events.take(n), i) == exits(events, i),
{
    assert(events.take(n).take(i) =~= events.take(i));
    assert(events.take(n)[i] == events[i]);
}

/// What the stage says of the events that led to it.
proof fn lemma_stage_knows_the_past(events: Seq<StartEvent>)
    ensures
        stage_after(events) is Searching ==> forall|i: int|
            !#[trigger] asks_for_buttons(events, i) && !clicks(events, i) && !exits(events, i),
        stage_after(events) is Locating ==> (exists|i: int| asks_for_buttons(events, i)),
        stage_after(events) is Searching || stage_after(events) is Locating ==> forall|i: int|
            !#[trigger] clicks(events, i) && !exits(events, i),
        stage_after(events) is Focusing || stage_after(events) is Loading ==> (exists|i: int|
            clicks(events, i)),
        stage_after(events) is Ended ==> (exists|i: int| exits(events, i)),
        !(stage_after(events) is Ended) ==> forall|i: int| !#[trigger] exits(events, i),
        stage_after(events) is Ended ==> forall|i: int| !#[trigger] clicks(events, i),
    decreases events.len(),
{
    if events.len() > 0 {
        let last = events.len() - 1;
        let before = events.drop_last();
        assert(events.take(last) =~= before);
        lemma_stage_knows_the_past(before);
        assert forall|i: int|
            #![trigger asks_for_buttons(before, i)]
            #![trigger asks_for_buttons(events, i)]
            #![trigger clicks(before, i)]
            #![trigger clicks(events, i)]
            #![trigger exits(before, i)]
            #![trigger exits(events, i)]
            0 <= i < last implies asks_for_buttons(before, i) == asks_for_buttons(events, i)
            && clicks(before, i) == clicks(events, i) && exits(before, i) == exits(events, i) by {
            lemma_earlier_events(events, last, i);
        }
        let action = action_at(events, last);
        assert(asks_for_buttons(events, last) == (action is LocateButtons));
        assert(clicks(events, last) == (action is Click));
        assert(exits(events, last) == (action is Exit));
    }
}

/// The mouse is left alone until the buttons are located: every click follows at once on
/// the report that every button was located, after the buttons were asked for, and it
/// goes to the middle of the window.
pub proof fn law_no_click_before_the_buttons_are_located(events: Seq<StartEvent>, i: int)
    requires
        clicks(events, i),
    ensures
        has_located(events, i),
        exists|j: int| 0 <= j < i && #[trigger] asks_for_buttons(events, j),
        match events[i] {
            StartEvent::Located { window } => has_middle(events[i]) ==> ({
                let at = action_at(events, i)->at;
                at.0 == screen::middle(window).0 && at.1 == screen::middle(window).1
            }),
            _ => false,
        },
        action_at(events, i)->Click_wait_ms == FOCUS_WAIT_MS,
        forall|j: int| 0 <= j < i ==> !#[trigger] clicks(events, j),
{
    let before = events.take(i);
    lemma_stage_knows_the_past(before);
    let asked = choose|j: int| asks_for_buttons(before, j);
    lemma_earlier_events(events, i, asked);
    assert(asks_for_buttons(events, asked));
    assert forall|j: int| 0 <= j < i implies !#[trigger] clicks(events, j) by {
        lemma_earlier_events(events, i, j);
        assert(!clicks(before, j));
    }
}

/// A start makes one click at most, and nothing is loaded before it.
pub proof fn law_a_start_clicks_once(events: Seq<StartEvent>, i: int, j: int)
    ensures
        clicks(events, i) && clicks(events, j) ==> i == j,
        stage_after(events) is Loading ==> (exists|k: int| clicks(events, k)),
        0 <= i < events.len() && action_at(events, i) is Load ==> (exists|k: int|
            0 <= k < i && #[trigger] clicks(events, k)),
{
    lemma_stage_knows_the_past(events);
    if clicks(events, i) {
        law_no_click_before_the_buttons_are_located(events, i);
    }
    if clicks(events, j) {
        law_no_click_before_the_buttons_are_located(events, j);
    }
    if 0 <= i < events.len() && action_at(events, i) is Load {
        let before = events.take(i);
        lemma_stage_knows_the_past(before);
        let k = choose|k: int| clicks(before, k);
        lemma_earlier_events(events, i, k);
        assert(clicks(events, k));
    }
}

/// A start that failed ends with the exit code of a failure, without a click and without
/// anything loaded, and it ends exactly when the program is told to exit.
pub proof fn law_a_failed_start_exits(events: Seq<StartEvent>)
    ensures
        stage_after(events) is Ended <==> (exists|i: int| exits(events, i)),
        forall|i: int|
            #[trigger] exits(events, i) ==> action_at(events, i)->code == FAILURE_CODE,
        stage_after(events) is Ended ==> forall|i: int|
            0 <= i < events.len() ==> !(#[trigger] action_at(events, i) is Click) && !(action_at(
                events,
                i,
            ) is Load),
{
    lemma_stage_knows_the_past(events);
    if stage_after(events) is Ended {
        assert forall|i: int| 0 <= i < events.len() implies !(#[trigger] action_at(events, i)
            is Click) && !(action_at(events, i) is Load) by {
            assert(!clicks(events, i));
            if action_at(events, i) is Load {
                law_a_start_clicks_once(events, i, i);
            }
        }
    }
}

/// A button that is missing ends the program at once, and without it nothing is clicked.
pub proof fn law_missing_buttons_end_the_program(events: Seq<StartEvent>, i: int)
    requires
        0 <= i < events.len(),
        stage_after(events.take(i)) is Locating,
        events[i] is ButtonsMissing,
    ensures
        action_at(events, i) == (StartAction::Exit { wait_ms: 0, code: FAILURE_CODE }),
        forall|j: int| 0 <= j <= i ==> !#[trigger] clicks(events, j),
{
    lemma_stage_knows_the_past(events.take(i));
    assert forall|j: int| 0 <= j <= i implies !#[trigger] clicks(events, j) by {
        if j < i {
            lemma_earlier_events(events, i, j);
            assert(!clicks(events.take(i), j));
        }
    }
}

/// As long as the window is not found it is looked for again, until that has failed as
/// often as it is tried.
pub proof fn law_searches_are_counted(events: Seq<StartEvent>)
    requires
        forall|i: int| 0 <= i < events.len() ==> events[i] == (StartEvent::Searched { found: None }),
    ensures
        stage_after(events) == if events.len() < find_window::MAX_ATTEMPTS {
            StartStage::Searching { attempt: (events.len() + 1) as u32 }
        } else {
            StartStage::Ended
        },
    decreases events.len(),
{
    if events.len() > 0 {
        law_searches_are_counted(events.drop_last());
    }
}

} // verus!
