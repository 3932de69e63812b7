//! What a round of the main loop does: picking up comes before fighting, and fighting
//! before walking.
use crate::app;
use crate::app::App;
use crate::asset_loader::ButtonManifest;
use crate::distance;
use crate::distance::Tolerance;
use crate::game_status;
use crate::game_status::{EntityInfo, EntityView, MovementStatus, StatusView};
use crate::monster_detector::TextBox;
use crate::score::Score;
use crate::text_ocr;
use crate::text_ocr::{RawTextBlock, TextOcrConfig};
use vstd::prelude::*;

verus! {

/// Milliseconds between two rounds, unless the first one picked up.
pub const LOOP_INTERVAL_MS: u64 = 1200;

/// Milliseconds that the character takes to pick an item up.
pub const PICK_UP_WAIT_MS: u64 = 2000;

/// What the recogniser made of a frame.
#[derive(Debug)]
pub enum TextReading {
    /// There is no recogniser.
    Unavailable,
    /// The recogniser failed.
    Failed,
    /// The text blocks of the frame.
    Blocks(Vec<RawTextBlock>),
}

/// What was read in a round, at time `now` in nanoseconds.
#[derive(Debug)]
pub struct FrameReading {
    pub width: i32,
    pub height: i32,
    /// Position of the character.
    pub position: Option<(i32, i32)>,
    /// Number of candidate strips of white text.
    pub candidate_boxes: usize,
    pub text: TextReading,
    pub now: u64,
}

impl FrameReading {
    /// The areas of the blocks can be told.
    pub open spec fn is_sound(self, cfg: TextOcrConfig) -> bool {
        match self.text {
            TextReading::Blocks(blocks) => text_ocr::areas_fit(blocks@, cfg),
            _ => true,
        }
    }
}

/// What a round does.
#[derive(Clone, Copy, Debug, PartialEq, Eq)]
pub enum FrameAction {
    /// Click the pick-up button and give the character time.
    PickUp { at: (i32, i32) },
    /// Click the attack button.
    Attack { at: (i32, i32) },
    /// There is something to attack, but nothing to click.
    AttackButtonMissing,
    /// Do nothing: the character walks, or it is too early to tell.
    Wait { status: MovementStatus },
    /// Do nothing: a walk failed not long ago.
    NavigationCooling,
    /// Walk to another place by way of the map.
    Navigate,
}

/// Milliseconds from the end of a round to the next one. A round that picked up has waited
/// already, and the next one follows at once.
pub fn wait_after(action: &FrameAction) -> (ms: u64)
    ensures
        ms == (if action is PickUp {
            0
        } else {
            LOOP_INTERVAL_MS
        }),
{
    match action {
        FrameAction::PickUp { .. } => 0,
        _ => LOOP_INTERVAL_MS,
    }
}

/// The status with a position that was read.
pub open spec fn with_position(status: StatusView, position: Option<(i32, i32)>) -> StatusView {
    match position {
        Some(p) => StatusView { player_x: p.0, player_y: p.1, ..status },
        None => status,
    }
}

/// The status with the name of the map, where one was read.
pub open spec fn with_map_name(
    status: StatusView,
    text: TextReading,
    width: int,
    height: int,
    cfg: TextOcrConfig,
) -> StatusView {
    match text {
        TextReading::Blocks(blocks) => match text_ocr::map_name(blocks@, width, height, cfg) {
            Some(best) => StatusView { map_name: best.0, ..status },
            None => status,
        },
        _ => status,
    }
}

/// Items as entities. Their places are not read.
pub open spec fn item_entities(items: Seq<text_ocr::ItemReading>) -> Seq<EntityView> {
    items.map_values(|m: text_ocr::ItemReading| (m.0, 0i32, 0i32, m.2))
}

/// Monsters as entities.
pub open spec fn monster_entities(monsters: Seq<text_ocr::MonsterReading>) -> Seq<EntityView> {
    monsters.map_values(|m: text_ocr::MonsterReading| (m.0, m.1.x, m.1.y, m.2))
}

/// The wanted items of a frame and where they are picked up with: the status with the
/// items, and the pick-up button where there are any.
pub open spec fn pick_up_step(
    status: StatusView,
    text: TextReading,
    buttons: ButtonManifest,
    cfg: TextOcrConfig,
) -> (StatusView, Option<(i32, i32)>) {
    match text {
        TextReading::Blocks(blocks) => {
            let items = text_ocr::items_read(blocks@, status.allowed_items, cfg);
            (
                StatusView { active_items: item_entities(items), ..status },
                if items.len() > 0 {
                    buttons.point_of("pick_up"@)
                } else {
                    None
                },
            )
        },
        _ => (status, None),
    }
}

/// The wanted monsters of a frame: the status with them, and whether to attack. Without
/// a recogniser, any candidate box is attacked.
pub open spec fn hunt_step(
    status: StatusView,
    text: TextReading,
    candidate_boxes: nat,
    cfg: TextOcrConfig,
) -> (StatusView, bool) {
    match text {
        TextReading::Blocks(blocks) => {
            let monsters = text_ocr::without_copies(
                text_ocr::monsters_read(blocks@, status.allowed_monsters, cfg),
            );
            (
                StatusView { active_monsters: monster_entities(monsters), ..status },
                monsters.len() > 0,
            )
        },
        TextReading::Failed => (status, false),
        TextReading::Unavailable => (status, candidate_boxes > 0),
    }
}

/// An attack forgets where the character was seen.
pub open spec fn attack_step(status: StatusView, buttons: ButtonManifest) -> (
    StatusView,
    FrameAction,
) {
    (
        StatusView { baseline: None, ..status },
        match buttons.point_of("attack"@) {
            Some(at) => FrameAction::Attack { at },
            None => FrameAction::AttackButtonMissing,
        },
    )
}

/// A character that stands still is sent to another place, unless that failed not long
/// ago.
pub open spec fn move_step(
    status: StatusView,
    position: Option<(i32, i32)>,
    retry_after: Option<u64>,
    now: u64,
) -> (StatusView, FrameAction) {
    let step = game_status::movement_step(
        status.baseline,
        position,
        Tolerance { bits: app::STUCK_MOVE_EPSILON },
        app::STUCK_CHECK_INTERVAL as nat,
        now,
    );
    (
        StatusView { baseline: step.1, ..status },
        if step.0 != MovementStatus::Stalled {
            FrameAction::Wait { status: step.0 }
        } else if app::is_cooling(retry_after, now) {
            FrameAction::NavigationCooling
        } else {
            FrameAction::Navigate
        },
    )
}

/// What a frame leads to.
pub open spec fn frame_step(
    status: StatusView,
    buttons: ButtonManifest,
    retry_after: Option<u64>,
    cfg: TextOcrConfig,
    reading: FrameReading,
) -> (StatusView, FrameAction) {
    let known = with_map_name(
        with_position(status, reading.position),
        reading.text,
        reading.width as int,
        reading.height as int,
        cfg,
    );
    let (looted, pick_up) = pick_up_step(known, reading.text, buttons, cfg);
    match pick_up {
        Some(at) => (looted, FrameAction::PickUp { at }),
        None => {
            let (hunted, attack) = hunt_step(
                looted,
                reading.text,
                reading.candidate_boxes as nat,
                cfg,
            );
            if attack {
                attack_step(hunted, buttons)
            } else {
                move_step(hunted, reading.position, retry_after, reading.now)
            }
        },
    }
}

/// Nothing of the session but its status has changed.
pub open spec fn only_status_changed(after: App, before: App) -> bool {
    &&& after.coordinates_cache == before.coordinates_cache
    &&& after.cfg == before.cfg
    &&& after.pos_cfg == before.pos_cfg
    &&& after.map_cfg == before.map_cfg
    &&& after.nav_cfg == before.nav_cfg
    &&& after.item_ocr_cfg == before.item_ocr_cfg
    &&& after.text_ocr_cfg == before.text_ocr_cfg
    &&& after.templates == before.templates
    &&& after.digit_templates == before.digit_templates
    &&& after.dumped_map_debug == before.dumped_map_debug
    &&& after.dumped_position_debug == before.dumped_position_debug
    &&& after.map_nav_retry_after == before.map_nav_retry_after
    &&& after.debug_monster == before.debug_monster
    &&& after.close_map_button_cache == before.close_map_button_cache
}

/// Takes the position of a frame over.
pub fn read_current_position(app: &mut App, position: Option<(i32, i32)>)
    ensures
        final(app).live_status@ == with_position(old(app).live_status@, position),
        only_status_changed(*final(app), *old(app)),
{
    if let Some(p) = position {
        app.live_status.update_position(p.0, p.1);
    }
}

/// Takes the name of the map over, where one was read.
pub fn identify_map(app: &mut App, text: &TextReading, width: i32, height: i32)
    ensures
        final(app).live_status@ == with_map_name(
            old(app).live_status@,
            *text,
            width as int,
            height as int,
            old(app).text_ocr_cfg,
        ),
        only_status_changed(*final(app), *old(app)),
{
    if let TextReading::Blocks(blocks) = text {
        let best: Option<(String, Score)> = text_ocr::match_map_name(
            blocks.as_slice(),
            width,
            height,
            &app.text_ocr_cfg,
        );
        if let Some(named) = best {
            app.live_status.update_map_name(named.0);
        }
    }
}

/// Takes the wanted items of a frame over, and says where to click to pick them up.
pub fn try_pick_up_items(app: &mut App, text: &TextReading) -> (at: Option<(i32, i32)>)
    ensures
        (final(app).live_status@, at) == pick_up_step(
            old(app).live_status@,
            *text,
            old(app).coordinates_cache,
            old(app).text_ocr_cfg,
        ),
        only_status_changed(*final(app), *old(app)),
{
    match text {
        TextReading::Blocks(blocks) => {
            let items: Vec<(String, String, Score)> = text_ocr::match_items(
                blocks.as_slice(),
                &app.live_status.allowed_item_set,
                &app.text_ocr_cfg,
            );
            let mut found: Vec<EntityInfo> = Vec::new();
            let ghost wanted = item_entities(text_ocr::item_readings(items@));
            let mut i: usize = 0;
            assert(game_status::entities(found@) =~= wanted.take(0));
            while i < items.len()
                invariant
                    i <= items@.len(),
                    wanted == item_entities(text_ocr::item_readings(items@)),
                    game_status::entities(found@) == wanted.take(i as int),
                decreases items.len() - i,
            {
                let ghost before = found@;
                found.push(
                    EntityInfo {
                        name: items[i].0.clone(),
                        screen_x: 0,
                        screen_y: 0,
                        confidence: items[i].2,
                    },
                );
                assert(game_status::entities(found@) =~= game_status::entities(before).push(
                    wanted[i as int],
                ));
                assert(wanted.take(i + 1) =~= wanted.take(i as int).push(wanted[i as int]));
                i = i + 1;
            }
            assert(wanted.take(wanted.len() as int) =~= wanted);
            app.live_status.update_items(found);
            if items.len() == 0 {
                return None;
            }
            app.coordinates_cache.click_point("pick_up")
        },
        _ => None,
    }
}

/// Takes the wanted monsters of a frame over, and says whether to attack.
pub fn detect_monsters_and_should_attack(
    app: &mut App,
    text: &TextReading,
    candidate_boxes: usize,
) -> (attack: bool)
    requires
        match *text {
            TextReading::Blocks(blocks) => text_ocr::areas_fit(blocks@, old(app).text_ocr_cfg),
            _ => true,
        },
    ensures
        (final(app).live_status@, attack) == hunt_step(
            old(app).live_status@,
            *text,
            candidate_boxes as nat,
            old(app).text_ocr_cfg,
        ),
        only_status_changed(*final(app), *old(app)),
{
    match text {
        TextReading::Blocks(blocks) => {
            let monsters: Vec<(String, TextBox, Score)> = text_ocr::match_monsters(
                blocks.as_slice(),
                &app.live_status.allowed_monster_set,
                &app.text_ocr_cfg,
            );
            let mut found: Vec<EntityInfo> = Vec::new();
            let ghost wanted = monster_entities(text_ocr::monster_readings(monsters@));
            let mut i: usize = 0;
            assert(game_status::entities(found@) =~= wanted.take(0));
            while i < monsters.len()
                invariant
                    i <= monsters@.len(),
                    wanted == monster_entities(text_ocr::monster_readings(monsters@)),
                    game_status::entities(found@) == wanted.take(i as int),
                decreases monsters.len() - i,
            {
                let ghost before = found@;
                found.push(
                    EntityInfo {
                        name: monsters[i].0.clone(),
                        screen_x: monsters[i].1.x,
                        screen_y: monsters[i].1.y,
                        confidence: monsters[i].2,
                    },
                );
                assert(game_status::entities(found@) =~= game_status::entities(before).push(
                    wanted[i as int],
                ));
                assert(wanted.take(i + 1) =~= wanted.take(i as int).push(wanted[i as int]));
                i = i + 1;
            }
            assert(wanted.take(wanted.len() as int) =~= wanted);
            app.live_status.update_monsters(found);
            monsters.len() > 0
        },
        TextReading::Failed => false,
        TextReading::Unavailable => candidate_boxes > 0,
    }
}

/// Forgets where the character was seen, so that a fight is not taken for standing
/// still, and says where to click.
pub fn attack(app: &mut App) -> (action: FrameAction)
    ensures
        (final(app).live_status@, action) == attack_step(
            old(app).live_status@,
            old(app).coordinates_cache,
        ),
        only_status_changed(*final(app), *old(app)),
{
    app.live_status.reset_movement_check();
    match app.coordinates_cache.click_point("attack") {
        Some(at) => FrameAction::Attack { at },
        None => FrameAction::AttackButtonMissing,
    }
}

/// Judges whether the character moves, and whether it is to be sent to another place.
pub fn maybe_move(app: &mut App, position: Option<(i32, i32)>, now: u64) -> (action: FrameAction)
    ensures
        (final(app).live_status@, action) == move_step(
            old(app).live_status@,
            position,
            old(app).map_nav_retry_after,
            now,
        ),
        only_status_changed(*final(app), *old(app)),
{
    let status: MovementStatus = app.live_status.check_movement_status(
        position,
        Tolerance { bits: app::STUCK_MOVE_EPSILON },
        app::STUCK_CHECK_INTERVAL,
        now,
    );
    if status != MovementStatus::Stalled {
        FrameAction::Wait { status }
    } else if app.navigation_is_cooling(now) {
        FrameAction::NavigationCooling
    } else {
        FrameAction::Navigate
    }
}

/// Takes what was read in a round over, and says what the round does.
pub fn run_one_frame(app: &mut App, reading: &FrameReading) -> (action: FrameAction)
    requires
        reading.is_sound(old(app).text_ocr_cfg),
    ensures
        (final(app).live_status@, action) == frame_step(
            old(app).live_status@,
            old(app).coordinates_cache,
            old(app).map_nav_retry_after,
            old(app).text_ocr_cfg,
            *reading,
        ),
        only_status_changed(*final(app), *old(app)),
{
    read_current_position(app, reading.position);
    identify_map(app, &reading.text, reading.width, reading.height);
    match try_pick_up_items(app, &reading.text) {
        Some(at) => FrameAction::PickUp { at },
        None => {
            if detect_monsters_and_should_attack(app, &reading.text, reading.candidate_boxes) {
                attack(app)
            } else {
                maybe_move(app, reading.position, reading.now)
            }
        },
    }
}

/// Wanted items are read in a frame.
pub open spec fn sees_items(status: StatusView, reading: FrameReading, cfg: TextOcrConfig) -> bool {
    match reading.text {
        TextReading::Blocks(blocks) => text_ocr::items_read(
            blocks@,
            status.allowed_items,
            cfg,
        ).len() > 0,
        _ => false,
    }
}

/// Something to attack is read in a frame.
pub open spec fn sees_monsters(
    status: StatusView,
    reading: FrameReading,
    cfg: TextOcrConfig,
) -> bool {
    hunt_step(status, reading.text, reading.candidate_boxes as nat, cfg).1
}

/// Picking up comes first: a round picks up exactly when wanted items are read and the
/// button is located, whatever monsters are there and wherever the character is. Such a
/// round leaves the monsters and the judgement on the movement alone.
pub proof fn law_picking_up_comes_first(
    status: StatusView,
    buttons: ButtonManifest,
    retry_after: Option<u64>,
    cfg: TextOcrConfig,
    reading: FrameReading,
)
    ensures
        ({
            let (after, action) = frame_step(status, buttons, retry_after, cfg, reading);
            &&& action is PickUp <==> sees_items(status, reading, cfg) && buttons.point_of(
                "pick_up"@,
            ) is Some
            &&& action is PickUp ==> after.active_monsters == status.active_monsters
                && after.baseline == status.baseline
        }),
{
}

/// Fighting comes before walking: a round that does not pick up attacks exactly when
/// there is something to attack, and then forgets where the character was seen.
pub proof fn law_fighting_comes_before_walking(
    status: StatusView,
    buttons: ButtonManifest,
    retry_after: Option<u64>,
    cfg: TextOcrConfig,
    reading: FrameReading,
)
    requires
        !(frame_step(status, buttons, retry_after, cfg, reading).1 is PickUp),
    ensures
        ({
            let (after, action) = frame_step(status, buttons, retry_after, cfg, reading);
            &&& (action is Attack || action is AttackButtonMissing) <==> sees_monsters(
                status,
                reading,
                cfg,
            )
            &&& sees_monsters(status, reading, cfg) ==> after.baseline is None
        }),
{
}

/// A round walks only when there is nothing to pick up with and nothing to attack, the
/// character was read to stand still, and no walk failed not long ago.
pub proof fn law_walking_comes_last(
    status: StatusView,
    buttons: ButtonManifest,
    retry_after: Option<u64>,
    cfg: TextOcrConfig,
    reading: FrameReading,
)
    ensures
        ({
            let (after, action) = frame_step(status, buttons, retry_after, cfg, reading);
            action == FrameAction::Navigate <==> {
                &&& !(sees_items(status, reading, cfg) && buttons.point_of("pick_up"@) is Some)
                &&& !sees_monsters(status, reading, cfg)
                &&& game_status::movement_step(
                    status.baseline,
                    reading.position,
                    (Tolerance { bits: app::STUCK_MOVE_EPSILON }),
                    app::STUCK_CHECK_INTERVAL as nat,
                    reading.now,
                ).0 == MovementStatus::Stalled
                &&& !app::is_cooling(retry_after, reading.now)
            }
        }),
{
}

/// The monsters that a frame leaves in the status all have wanted names.
pub proof fn law_only_wanted_monsters_are_kept(
    status: StatusView,
    blocks: Seq<RawTextBlock>,
    cfg: TextOcrConfig,
)
    requires
        status.allowed_monsters.no_duplicates(),
    ensures
        ({
            let monsters = text_ocr::without_copies(
                text_ocr::monsters_read(blocks, status.allowed_monsters, cfg),
            );
            forall|i: int|
                0 <= i < monster_entities(monsters).len() ==> status.allowed_monsters.contains(
                    (#[trigger] monster_entities(monsters)[i]).0,
                )
        }),
{
    let read = text_ocr::monsters_read(blocks, status.allowed_monsters, cfg);
    let monsters = text_ocr::without_copies(read);
    text_ocr::law_no_monster_is_lost(read);
    text_ocr::law_monsters_read_are_wanted(blocks, status.allowed_monsters, cfg);
    let kept = monster_entities(monsters);
    assert forall|i: int| 0 <= i < kept.len() implies status.allowed_monsters.contains(
        (#[trigger] kept[i]).0,
    ) by {
        assert(read.contains(monsters[i]));
        let k = choose|k: int| 0 <= k < read.len() && read[k] == monsters[i];
        assert(status.allowed_monsters.contains(read[k].0));
    }
}

/// The items that a frame leaves in the status all have wanted names.
pub proof fn law_only_wanted_items_are_kept(
    status: StatusView,
    blocks: Seq<RawTextBlock>,
    cfg: TextOcrConfig,
)
    requires
        status.allowed_items.no_duplicates(),
    ensures
        ({
            let items = text_ocr::items_read(blocks, status.allowed_items, cfg);
            forall|i: int|
                0 <= i < item_entities(items).len() ==> status.allowed_items.contains(
                    (#[trigger] item_entities(items)[i]).0,
                )
        }),
{
    let items = text_ocr::items_read(blocks, status.allowed_items, cfg);
    text_ocr::law_items_read_are_wanted(blocks, status.allowed_items, cfg);
    let kept = item_entities(items);
    assert forall|i: int| 0 <= i < kept.len() implies status.allowed_items.contains(
        (#[trigger] kept[i]).0,
    ) by {
        assert(status.allowed_items.contains(items[i].0));
    }
}

/// What a round does follows from what is shown: it picks up exactly when some trusted
/// block shows a wanted item and the button is located. Otherwise it attacks exactly when
/// some trusted block shows a wanted monster, however many there are, and only otherwise
/// does it think of walking. The clicks go where the buttons are.
pub proof fn law_a_round_follows_what_is_shown(
    status: StatusView,
    buttons: ButtonManifest,
    retry_after: Option<u64>,
    cfg: TextOcrConfig,
    reading: FrameReading,
    blocks: Vec<RawTextBlock>,
)
    requires
        reading.text == TextReading::Blocks(blocks),
    ensures
        ({
            let action = frame_step(status, buttons, retry_after, cfg, reading).1;
            let pick_up = buttons.point_of("pick_up"@);
            let attack = buttons.point_of("attack"@);
            let item = text_ocr::some_name_is_shown(blocks@, status.allowed_items, cfg);
            let monster = text_ocr::some_name_is_shown(blocks@, status.allowed_monsters, cfg);
            &&& item && pick_up is Some ==> action == (FrameAction::PickUp { at: pick_up->0 })
            &&& !(item && pick_up is Some) && monster && attack is Some ==> action == (
            FrameAction::Attack { at: attack->0 })
            &&& !(item && pick_up is Some) && monster && attack is None ==> action
                == FrameAction::AttackButtonMissing
            &&& !(item && pick_up is Some) && !monster ==> action is Wait
                || action is NavigationCooling || action is Navigate
        }),
{
    text_ocr::law_something_is_found_where_a_name_is_shown(blocks@, status.allowed_items, cfg);
    text_ocr::law_something_is_found_where_a_name_is_shown(blocks@, status.allowed_monsters, cfg);
}

/// Without a text that was read nothing is picked up. Where the recogniser failed nothing
/// is attacked either; where there is none, any candidate box is.
pub proof fn law_a_round_without_text(
    status: StatusView,
    buttons: ButtonManifest,
    retry_after: Option<u64>,
    cfg: TextOcrConfig,
    reading: FrameReading,
)
    requires
        !(reading.text is Blocks),
    ensures
        ({
            let (after, action) = frame_step(status, buttons, retry_after, cfg, reading);
            let attack = buttons.point_of("attack"@);
            let seen = reading.text is Unavailable && reading.candidate_boxes > 0;
            &&& seen && attack is Some ==> action == (FrameAction::Attack { at: attack->0 })
            &&& seen && attack is None ==> action == FrameAction::AttackButtonMissing
            &&& !seen ==> action is Wait || action is NavigationCooling || action is Navigate
            &&& after.active_monsters == status.active_monsters
            &&& after.active_items == status.active_items
            &&& after.map_name == status.map_name
        }),
{
}

/// What a round that neither picks up nor attacks does. The position is judged four seconds
/// after the last one at the earliest, the character stands still when it came less than
/// five pixels far, and then it is sent elsewhere unless a walk failed not long ago.
pub proof fn law_a_round_sends_a_standing_character_elsewhere(
    status: StatusView,
    buttons: ButtonManifest,
    retry_after: Option<u64>,
    cfg: TextOcrConfig,
    reading: FrameReading,
)
    requires
        ({
            let action = frame_step(status, buttons, retry_after, cfg, reading).1;
            action is Wait || action is NavigationCooling || action is Navigate
        }),
    ensures
        ({
            let (after, action) = frame_step(status, buttons, retry_after, cfg, reading);
            match (reading.position, status.baseline) {
                (None, _) => action == (FrameAction::Wait { status: MovementStatus::NoPosition })
                    && after.baseline == status.baseline,
                (Some(p), None) => action == (FrameAction::Wait {
                    status: MovementStatus::FirstObservation,
                }) && after.baseline == Some((p, reading.now)),
                (Some(p), Some(seen)) => {
                    let dx = p.0 - seen.0.0;
                    let dy = p.1 - seen.0.1;
                    if reading.now < seen.1 + 4000000000 {
                        action == (FrameAction::Wait { status: MovementStatus::Cooling })
                            && after.baseline == status.baseline
                    } else if dx * dx + dy * dy >= 25 {
                        action == (FrameAction::Wait { status: MovementStatus::Moving })
                            && after.baseline == Some((p, reading.now))
                    } else {
                        &&& after.baseline == Some((p, reading.now))
                        &&& match retry_after {
                            Some(t) => if reading.now < t {
                                action == FrameAction::NavigationCooling
                            } else {
                                action == FrameAction::Navigate
                            },
                            None => action == FrameAction::Navigate,
                        }
                    }
                },
            }
        }),
{
    if let (Some(p), Some(seen)) = (reading.position, status.baseline) {
        distance::law_rounding_does_not_show_at_five(seen.0, p);
    }
}

/// A round takes over what it read and leaves the rest: the position where one was read,
/// the name of the map where the plaque shows one, the items in any case, the monsters
/// where it does not pick up. What is configured and the health stay.
pub proof fn law_a_round_takes_over_what_it_read(
    status: StatusView,
    buttons: ButtonManifest,
    retry_after: Option<u64>,
    cfg: TextOcrConfig,
    reading: FrameReading,
    blocks: Vec<RawTextBlock>,
)
    requires
        reading.text == TextReading::Blocks(blocks),
    ensures
        ({
            let (after, action) = frame_step(status, buttons, retry_after, cfg, reading);
            &&& after.hp_percent == status.hp_percent
            &&& after.allowed_monsters == status.allowed_monsters
            &&& after.allowed_items == status.allowed_items
            &&& after.logging == status.logging
            &&& match reading.position {
                Some(p) => after.player_x == p.0 && after.player_y == p.1,
                None => after.player_x == status.player_x && after.player_y == status.player_y,
            }
            &&& match text_ocr::map_name(
                blocks@,
                reading.width as int,
                reading.height as int,
                cfg,
            ) {
                Some(best) => after.map_name == best.0,
                None => after.map_name == status.map_name,
            }
            &&& action is PickUp ==> after.active_monsters == status.active_monsters
                && after.baseline == status.baseline
            &&& action is Attack || action is AttackButtonMissing ==> after.baseline is None
        }),
{
}

/// The items of a round are those that trusted blocks show, each with the confidence of
/// its block and without a place.
pub proof fn law_shown_items_are_listed(
    status: StatusView,
    buttons: ButtonManifest,
    retry_after: Option<u64>,
    cfg: TextOcrConfig,
    reading: FrameReading,
    blocks: Vec<RawTextBlock>,
    e: EntityView,
)
    requires
        reading.text == TextReading::Blocks(blocks),
    ensures
        frame_step(status, buttons, retry_after, cfg, reading).0.active_items.contains(e) <==> {
            &&& status.allowed_items.contains(e.0)
            &&& e.1 == 0 && e.2 == 0
            &&& exists|i: int|
                0 <= i < blocks@.len() && text_ocr::shows(#[trigger] blocks@[i], e.0, cfg)
                    && blocks@[i].confidence == e.3
        },
{
    let items = text_ocr::items_read(blocks@, status.allowed_items, cfg);
    let listed = item_entities(items);
    assert(frame_step(status, buttons, retry_after, cfg, reading).0.active_items == listed);
    if listed.contains(e) {
        let k = choose|k: int| 0 <= k < listed.len() && listed[k] == e;
        assert(items.contains(items[k]));
        text_ocr::law_shown_items_are_read(blocks@, status.allowed_items, cfg, items[k]);
        let i = choose|i: int| text_ocr::gives_item(blocks@, i, items[k], cfg);
        assert(text_ocr::shows(blocks@[i], e.0, cfg));
    }
    if status.allowed_items.contains(e.0) && e.1 == 0 && e.2 == 0 && exists|i: int|
        0 <= i < blocks@.len() && text_ocr::shows(#[trigger] blocks@[i], e.0, cfg)
            && blocks@[i].confidence == e.3 {
        let i = choose|i: int|
            0 <= i < blocks@.len() && text_ocr::shows(#[trigger] blocks@[i], e.0, cfg)
                && blocks@[i].confidence == e.3;
        let m = (e.0, blocks@[i].text@, e.3);
        text_ocr::law_shown_items_are_read(blocks@, status.allowed_items, cfg, m);
        assert(text_ocr::gives_item(blocks@, i, m, cfg));
        let k = choose|k: int| 0 <= k < items.len() && items[k] == m;
        assert(listed[k] == e);
    }
}

/// The monsters of a round that does not pick up are ones that trusted blocks show, each
/// with the place and the confidence of its block, and every wanted name that a trusted
/// block shows is among them, with a confidence that is not below that of the block.
pub proof fn law_shown_monsters_are_listed(
    status: StatusView,
    buttons: ButtonManifest,
    retry_after: Option<u64>,
    cfg: TextOcrConfig,
    reading: FrameReading,
    blocks: Vec<RawTextBlock>,
)
    requires
        reading.text == TextReading::Blocks(blocks),
        !(frame_step(status, buttons, retry_after, cfg, reading).1 is PickUp),
    ensures
        ({
            let listed = frame_step(status, buttons, retry_after, cfg, reading).0.active_monsters;
            &&& forall|k: int|
                0 <= k < listed.len() ==> ({
                    let e = #[trigger] listed[k];
                    &&& status.allowed_monsters.contains(e.0)
                    &&& exists|i: int|
                        0 <= i < blocks@.len() && text_ocr::shows(#[trigger] blocks@[i], e.0, cfg)
                            && blocks@[i].x == e.1 && blocks@[i].y == e.2 && blocks@[i].confidence
                            == e.3
                })
            &&& forall|i: int, n: int|
                0 <= i < blocks@.len() && 0 <= n < status.allowed_monsters.len()
                    && #[trigger] text_ocr::shows(blocks@[i], status.allowed_monsters[n], cfg)
                    ==> exists|k: int|
                    0 <= k < listed.len() && (#[trigger] listed[k]).0 == status.allowed_monsters[n]
                        && !listed[k].3.below(blocks@[i].confidence)
        }),
{
    let names = status.allowed_monsters;
    let read = text_ocr::monsters_read(blocks@, names, cfg);
    let kept = text_ocr::without_copies(read);
    let listed = monster_entities(kept);
    assert(frame_step(status, buttons, retry_after, cfg, reading).0.active_monsters == listed);
    text_ocr::law_no_monster_is_lost(read);
    assert forall|k: int| 0 <= k < listed.len() implies ({
        let e = #[trigger] listed[k];
        &&& names.contains(e.0)
        &&& exists|i: int|
            0 <= i < blocks@.len() && text_ocr::shows(#[trigger] blocks@[i], e.0, cfg)
                && blocks@[i].x == e.1 && blocks@[i].y == e.2 && blocks@[i].confidence == e.3
    }) by {
        assert(read.contains(kept[k]));
        text_ocr::law_shown_monsters_are_read(blocks@, names, cfg, kept[k]);
        let i = choose|i: int| text_ocr::gives_monster(blocks@, i, kept[k], cfg);
        assert(text_ocr::shows(blocks@[i], listed[k].0, cfg));
    }
    assert forall|i: int, n: int|
        0 <= i < blocks@.len() && 0 <= n < names.len() && #[trigger] text_ocr::shows(
            blocks@[i],
            names[n],
            cfg,
        ) implies exists|k: int|
        0 <= k < listed.len() && (#[trigger] listed[k]).0 == names[n] && !listed[k].3.below(
            blocks@[i].confidence,
        ) by {
        let b = blocks@[i];
        let m = (names[n], b.text_box(), b.confidence);
        text_ocr::law_shown_monsters_are_read(blocks@, names, cfg, m);
        assert(text_ocr::gives_monster(blocks@, i, m, cfg));
        assert(names.contains(m.0));
        let p = choose|p: int| 0 <= p < read.len() && read[p] == m;
        assert(text_ocr::is_covered(kept, read[p]));
        let k = choose|k: int|
            0 <= k < kept.len() && text_ocr::covers(#[trigger] kept[k], read[p]);
        assert(listed[k].0 == names[n]);
    }
}

} // verus!
