//! What is known of the game: the configured targets and the latest readings.
use crate::clock;
use crate::distance;
use crate::distance::Tolerance;
use crate::score::Score;
use crate::text;
use crate::whitelist;
use crate::whitelist::Whitelist;
use vstd::prelude::*;

verus! {

/// Monsters that are hunted, and the health below which the character is protected.
#[derive(Debug, Clone)]
pub struct HuntingConfig {
    pub target_monsters: Vec<String>,
    pub hp_protect_line: u8,
}

/// Items that are picked up.
#[derive(Debug, Clone)]
pub struct LootConfig {
    pub target_items: Vec<String>,
}

/// Which messages are shown. Failures are shown in any case.
#[derive(Clone, Copy, Debug, PartialEq, Eq, Structural)]
pub struct LoggingConfig {
    pub capture: bool,
    pub position: bool,
    pub map: bool,
    pub monster: bool,
    pub item: bool,
    pub movement: bool,
    pub status: bool,
}

/// Whether messages are shown that the configuration does not mention.
pub fn default_true() -> (r: bool)
    ensures
        r,
{
    true
}

/// All messages are shown.
pub open spec fn all_messages() -> LoggingConfig {
    LoggingConfig {
        capture: true,
        position: true,
        map: true,
        monster: true,
        item: true,
        movement: true,
        status: true,
    }
}

impl Default for LoggingConfig {
    fn default() -> (r: LoggingConfig)
        ensures
            r == all_messages(),
    {
        LoggingConfig {
            capture: true,
            position: true,
            map: true,
            monster: true,
            item: true,
            movement: true,
            status: true,
        }
    }
}

/// The configuration of a session.
#[derive(Debug, Clone)]
pub struct AppConfig {
    pub hunting: HuntingConfig,
    pub loot: LootConfig,
    pub logging: LoggingConfig,
}

/// A monster or an item that was recognised, and where.
#[derive(Debug, Clone)]
pub struct EntityInfo {
    pub name: String,
    pub screen_x: i32,
    pub screen_y: i32,
    pub confidence: Score,
}

/// Name, place and confidence of an entity.
pub type EntityView = (Seq<char>, i32, i32, Score);

pub open spec fn entities(list: Seq<EntityInfo>) -> Seq<EntityView> {
    list.map_values(|e: EntityInfo| (e.name@, e.screen_x, e.screen_y, e.confidence))
}

/// What a reading of the position says about the movement of the character.
#[derive(Clone, Copy, Debug, PartialEq, Eq, Structural)]
pub enum MovementStatus {
    /// The position was not read.
    NoPosition,
    /// The position is the first one that later ones are compared with.
    FirstObservation,
    /// It is too early to compare.
    Cooling,
    /// The character has moved.
    Moving,
    /// The character stands still.
    Stalled,
}

/// A position and the time at which it was read, in nanoseconds.
pub type Observation = ((i32, i32), u64);

/// Two positions are less than `epsilon` apart, as double precision has it.
pub open spec fn is_near(a: (i32, i32), b: (i32, i32), epsilon: Tolerance) -> bool {
    epsilon.exceeds(distance::distance(a, b))
}

/// What a reading at time `now` says, and the observation that later readings are
/// compared with. Positions are compared once `interval` nanoseconds have passed since
/// the observation, and the reading then takes its place.
pub open spec fn movement_step(
    baseline: Option<Observation>,
    current: Option<(i32, i32)>,
    epsilon: Tolerance,
    interval: nat,
    now: u64,
) -> (MovementStatus, Option<Observation>) {
    match (current, baseline) {
        (None, _) => (MovementStatus::NoPosition, baseline),
        (Some(p), None) => (MovementStatus::FirstObservation, Some((p, now))),
        (Some(p), Some(seen)) => if clock::elapsed(seen.1, now) < interval {
            (MovementStatus::Cooling, baseline)
        } else if is_near(seen.0, p, epsilon) {
            (MovementStatus::Stalled, Some((p, now)))
        } else {
            (MovementStatus::Moving, Some((p, now)))
        },
    }
}

/// The observation that positions are compared with.
#[derive(Clone, Copy, Debug)]
pub struct MovementCheck {
    seen: Option<((i32, i32), u64)>,
}

impl View for MovementCheck {
    type V = Option<Observation>;

    closed spec fn view(&self) -> Option<Observation> {
        self.seen
    }
}

/// The contents of a [`GameStatusCache`].
pub struct StatusView {
    pub map_name: Seq<char>,
    pub player_x: i32,
    pub player_y: i32,
    pub hp_percent: u8,
    pub active_monsters: Seq<EntityView>,
    pub active_items: Seq<EntityView>,
    pub allowed_monsters: Seq<Seq<char>>,
    pub allowed_items: Seq<Seq<char>>,
    pub logging: LoggingConfig,
    pub baseline: Option<Observation>,
}

/// The configured targets and the latest readings.
#[derive(Debug)]
pub struct GameStatusCache {
    pub map_name: String,
    pub player_x: i32,
    pub player_y: i32,
    pub hp_percent: u8,
    pub active_monsters: Vec<EntityInfo>,
    pub active_items: Vec<EntityInfo>,
    pub allowed_monster_set: Whitelist,
    pub allowed_item_set: Whitelist,
    pub logging: LoggingConfig,
    pub movement_check: MovementCheck,
}

impl View for GameStatusCache {
    type V = StatusView;

    open spec fn view(&self) -> StatusView {
        StatusView {
            map_name: self.map_name@,
            player_x: self.player_x,
            player_y: self.player_y,
            hp_percent: self.hp_percent,
            active_monsters: entities(self.active_monsters@),
            active_items: entities(self.active_items@),
            allowed_monsters: self.allowed_monster_set@,
            allowed_items: self.allowed_item_set@,
            logging: self.logging,
            baseline: self.movement_check@,
        }
    }
}

/// What is known before anything is configured or read.
pub open spec fn blank_status() -> StatusView {
    StatusView {
        map_name: Seq::empty(),
        player_x: 0,
        player_y: 0,
        hp_percent: 0,
        active_monsters: Seq::empty(),
        active_items: Seq::empty(),
        allowed_monsters: Seq::empty(),
        allowed_items: Seq::empty(),
        logging: all_messages(),
        baseline: None,
    }
}

/// The status with the targets and the messages of a configuration; without a
/// configuration it stays as it is.
pub open spec fn configured(status: StatusView, config: Option<AppConfig>) -> StatusView {
    match config {
        Some(c) => StatusView {
            allowed_monsters: whitelist::distinct_trimmed(
                whitelist::texts(c.hunting.target_monsters@),
            ),
            allowed_items: whitelist::distinct_trimmed(whitelist::texts(c.loot.target_items@)),
            logging: c.logging,
            ..status
        },
        None => status,
    }
}

impl Default for GameStatusCache {
    fn default() -> (r: GameStatusCache)
        ensures
            r@ == blank_status(),
    {
        let r: GameStatusCache = GameStatusCache {
            map_name: String::new(),
            player_x: 0,
            player_y: 0,
            hp_percent: 0,
            active_monsters: Vec::new(),
            active_items: Vec::new(),
            allowed_monster_set: Whitelist::empty(),
            allowed_item_set: Whitelist::empty(),
            logging: LoggingConfig::default(),
            movement_check: MovementCheck { seen: None },
        };
        assert(r@.active_monsters =~= Seq::<EntityView>::empty());
        assert(r@.active_items =~= Seq::<EntityView>::empty());
        assert(r@.map_name =~= Seq::<char>::empty());
        r
    }
}

/// Copies of all entities of a list.
fn copy_entities(list: &Vec<EntityInfo>) -> (r: Vec<EntityInfo>)
    ensures
        entities(r@) == entities(list@),
{
    let mut r: Vec<EntityInfo> = Vec::new();
    let mut i: usize = 0;
    assert(entities(r@) =~= entities(list@).take(0));
    while i < list.len()
        invariant
            i <= list@.len(),
            entities(r@) == entities(list@).take(i as int),
        decreases list.len() - i,
    {
        let ghost before = r@;
        r.push(
            EntityInfo {
                name: list[i].name.clone(),
                screen_x: list[i].screen_x,
                screen_y: list[i].screen_y,
                confidence: list[i].confidence,
            },
        );
        assert(entities(r@) =~= entities(before).push(entities(list@)[i as int]));
        assert(entities(r@) =~= entities(list@).take(i + 1));
        i = i + 1;
    }
    assert(entities(r@) =~= entities(list@));
    r
}

impl Clone for GameStatusCache {
    fn clone(&self) -> (r: GameStatusCache)
        ensures
            r@ == self@,
    {
        GameStatusCache {
            map_name: self.map_name.clone(),
            player_x: self.player_x,
            player_y: self.player_y,
            hp_percent: self.hp_percent,
            active_monsters: copy_entities(&self.active_monsters),
            active_items: copy_entities(&self.active_items),
            allowed_monster_set: self.allowed_monster_set.clone(),
            allowed_item_set: self.allowed_item_set.clone(),
            logging: self.logging,
            movement_check: self.movement_check,
        }
    }
}

impl GameStatusCache {
    /// The status at the start of a session; `config` is missing when there is none that
    /// could be read.
    pub fn new(config: Option<AppConfig>) -> (r: GameStatusCache)
        ensures
            r@ == configured(blank_status(), config),
    {
        let mut cache: GameStatusCache = GameStatusCache::default();
        cache.load_all_config_whitelists(config);
        cache
    }

    /// Takes the targets and the messages of a configuration over, and says whether
    /// there was one.
    pub fn load_all_config_whitelists(&mut self, config: Option<AppConfig>) -> (loaded: bool)
        ensures
            loaded == (config is Some),
            final(self)@ == configured(old(self)@, config),
    {
        match config {
            Some(c) => {
                self.allowed_monster_set = Whitelist::from_names(&c.hunting.target_monsters);
                self.allowed_item_set = Whitelist::from_names(&c.loot.target_items);
                self.logging = c.logging;
                true
            },
            None => false,
        }
    }

    /// Takes a position over.
    pub fn update_position(&mut self, x: i32, y: i32)
        ensures
            final(self)@ == (StatusView { player_x: x, player_y: y, ..old(self)@ }),
    {
        self.player_x = x;
        self.player_y = y;
    }

    /// Takes the name of the map over.
    pub fn update_map_name(&mut self, name: String)
        ensures
            final(self)@ == (StatusView { map_name: name@, ..old(self)@ }),
    {
        self.map_name = name;
    }

    /// Judges whether the character moves. `current_position` is what was read in this
    /// round, not what was known before; times are in nanoseconds.
    pub fn check_movement_status(
        &mut self,
        current_position: Option<(i32, i32)>,
        move_epsilon: Tolerance,
        check_interval: u64,
        now: u64,
    ) -> (status: MovementStatus)
        ensures
            ({
                let step = movement_step(
                    old(self)@.baseline,
                    current_position,
                    move_epsilon,
                    check_interval as nat,
                    now,
                );
                status == step.0 && final(self)@ == (StatusView {
                    baseline: step.1,
                    ..old(self)@
                })
            }),
    {
        let current: (i32, i32) = match current_position {
            Some(p) => p,
            None => {
                return MovementStatus::NoPosition;
            },
        };
        match self.movement_check.seen {
            None => {
                self.movement_check = MovementCheck { seen: Some((current, now)) };
                MovementStatus::FirstObservation
            },
            Some(seen) => {
                if clock::nanos_since(seen.1, now) < check_interval {
                    return MovementStatus::Cooling;
                }
                self.movement_check = MovementCheck { seen: Some((current, now)) };
                if near(seen.0, current, move_epsilon) {
                    MovementStatus::Stalled
                } else {
                    MovementStatus::Moving
                }
            },
        }
    }

    /// Forgets the observation that positions are compared with.
    pub fn reset_movement_check(&mut self)
        ensures
            final(self)@ == (StatusView { baseline: None, ..old(self)@ }),
    {
        self.movement_check = MovementCheck { seen: None };
    }

    /// Replaces the monsters that are in sight.
    pub fn update_monsters(&mut self, monsters: Vec<EntityInfo>)
        ensures
            final(self)@ == (StatusView { active_monsters: entities(monsters@), ..old(self)@ }),
    {
        self.active_monsters = monsters;
    }

    /// Replaces the items that are in sight.
    pub fn update_items(&mut self, items: Vec<EntityInfo>)
        ensures
            final(self)@ == (StatusView { active_items: entities(items@), ..old(self)@ }),
    {
        self.active_items = items;
    }
}

fn near(a: (i32, i32), b: (i32, i32), epsilon: Tolerance) -> (r: bool)
    ensures
        r == is_near(a, b, epsilon),
{
    epsilon.is_above(distance::distance_between(a, b))
}

/// After an observation was made or a judgement passed, every position that is read
/// before the interval is over finds it too early, and nothing changes.
pub proof fn law_judgements_are_an_interval_apart(
    baseline: Option<Observation>,
    current: (i32, i32),
    epsilon: Tolerance,
    interval: nat,
    now: u64,
    next: (i32, i32),
    later: u64,
)
    requires
        movement_step(baseline, Some(current), epsilon, interval, now).0
            != MovementStatus::Cooling,
        now <= later < now + interval,
    ensures
        ({
            let kept = movement_step(baseline, Some(current), epsilon, interval, now).1;
            movement_step(kept, Some(next), epsilon, interval, later) == (
                MovementStatus::Cooling,
                kept,
            )
        }),
{
}

/// Once the interval is over, a character that was read at the same place stands still
/// where the tolerance is above zero, and one that was read `epsilon` or further away moves.
pub proof fn law_standing_still_is_noticed(
    seen: Observation,
    current: (i32, i32),
    epsilon: Tolerance,
    interval: nat,
    now: u64,
)
    requires
        seen.1 + interval <= now,
        epsilon.is_positive(),
    ensures
        ({
            let status = movement_step(Some(seen), Some(current), epsilon, interval, now).0;
            &&& current == seen.0 ==> status == MovementStatus::Stalled
            &&& status == MovementStatus::Stalled <==> is_near(seen.0, current, epsilon)
            &&& status == MovementStatus::Moving <==> !is_near(seen.0, current, epsilon)
        }),
{
    distance::law_a_position_is_near_itself(current, epsilon);
}

/// A round without a position changes nothing, and after a fight, when nothing is
/// observed any more, the next position is only observed.
pub proof fn law_nothing_is_judged_without_two_positions(
    baseline: Option<Observation>,
    current: (i32, i32),
    epsilon: Tolerance,
    interval: nat,
    now: u64,
)
    ensures
        movement_step(baseline, None, epsilon, interval, now) == (
            MovementStatus::NoPosition,
            baseline,
        ),
        movement_step(None, Some(current), epsilon, interval, now) == (
            MovementStatus::FirstObservation,
            Some((current, now)),
        ),
{
}

/// A configuration sets the wanted monsters, the wanted items and the messages, and
/// nothing else: a name is wanted exactly when it is configured, the white space around it
/// aside.
pub proof fn law_a_configuration_sets_the_targets(
    status: StatusView,
    config: AppConfig,
    name: Seq<char>,
)
    ensures
        ({
            let after = configured(status, Some(config));
            &&& after.allowed_monsters.contains(name) <==> exists|i: int|
                0 <= i < config.hunting.target_monsters@.len() && text::trimmed(
                    (#[trigger] config.hunting.target_monsters@[i])@,
                ) == name
            &&& after.allowed_items.contains(name) <==> exists|i: int|
                0 <= i < config.loot.target_items@.len() && text::trimmed(
                    (#[trigger] config.loot.target_items@[i])@,
                ) == name
            &&& after.logging == config.logging
            &&& after.map_name == status.map_name
            &&& after.player_x == status.player_x && after.player_y == status.player_y
            &&& after.hp_percent == status.hp_percent
            &&& after.active_monsters == status.active_monsters
            &&& after.active_items == status.active_items
            &&& after.baseline == status.baseline
            &&& configured(status, None) == status
        }),
{
    let monsters = whitelist::texts(config.hunting.target_monsters@);
    let items = whitelist::texts(config.loot.target_items@);
    whitelist::law_configured_names_are_wanted(monsters, name);
    whitelist::law_configured_names_are_wanted(items, name);
    assert forall|i: int| 0 <= i < monsters.len() implies monsters[i] == (
    #[trigger] config.hunting.target_monsters@[i])@ by {}
    assert forall|i: int| 0 <= i < monsters.len() implies #[trigger] monsters[i]
        == config.hunting.target_monsters@[i]@ by {}
    assert forall|i: int| 0 <= i < items.len() implies items[i] == (
    #[trigger] config.loot.target_items@[i])@ by {}
    assert forall|i: int| 0 <= i < items.len() implies #[trigger] items[i]
        == config.loot.target_items@[i]@ by {}
}

/// An entity is shown with its name, its column, its row and its confidence, and the status
/// with everything that it holds.
pub proof fn law_the_status_shows_its_fields(status: GameStatusCache, list: Seq<EntityInfo>, i: int)
    requires
        0 <= i < list.len(),
    ensures
        entities(list).len() == list.len(),
        entities(list)[i].0 == list[i].name@,
        entities(list)[i].1 == list[i].screen_x,
        entities(list)[i].2 == list[i].screen_y,
        entities(list)[i].3 == list[i].confidence,
        status@.map_name == status.map_name@,
        status@.player_x == status.player_x && status@.player_y == status.player_y,
        status@.hp_percent == status.hp_percent,
        status@.active_monsters == entities(status.active_monsters@),
        status@.active_items == entities(status.active_items@),
        status@.allowed_monsters == status.allowed_monster_set@,
        status@.allowed_items == status.allowed_item_set@,
        status@.logging == status.logging,
{
}

/// A reading is judged by the time since the last one that was judged and by the distance
/// from it, and takes its place exactly when it was judged or is the first.
pub proof fn law_movement_is_judged_by_time_and_distance(
    seen: Observation,
    current: (i32, i32),
    epsilon: Tolerance,
    interval: nat,
    now: u64,
)
    ensures
        ({
            let (status, kept) = movement_step(Some(seen), Some(current), epsilon, interval, now);
            let early = now < seen.1 + interval && interval > 0;
            let near = epsilon.exceeds(distance::distance(seen.0, current));
            &&& early ==> status == MovementStatus::Cooling && kept == Some(seen)
            &&& !early && near ==> status == MovementStatus::Stalled
            &&& !early && !near ==> status == MovementStatus::Moving
            &&& !early ==> kept == Some((current, now))
        }),
{
}

} // verus!
