//! The state of a session.
use crate::asset_loader::ButtonManifest;
use crate::distance;
use crate::game_status;
use crate::game_status::{AppConfig, GameStatusCache};
use crate::item_ocr::ItemOcrConfig;
use crate::map_matcher::MapReaderConfig;
use crate::map_nav;
use crate::map_nav::{NavConfig, NavOutcome};
use crate::monster_detector::DetectorConfig;
use crate::monster_matcher::MonsterTemplate;
use crate::position_reader::{DigitTemplate, PositionReaderConfig};
use crate::text_ocr::TextOcrConfig;
use crate::util::ProjectDir;
use vstd::prelude::*;

verus! {

/// Nanoseconds between two judgements on whether the character moves.
pub const STUCK_CHECK_INTERVAL: u64 = 4000000000;

/// Encoding of the distance from which on the character counts as having moved: five.
pub const STUCK_MOVE_EPSILON: u64 = distance::FIVE_BITS;

/// Nanoseconds for which no walk is tried after one that failed.
pub const MAP_NAV_RETRY_COOLDOWN: u64 = 10000000000;

/// What a session keeps from round to round. Times are in nanoseconds.
#[derive(Debug)]
pub struct App {
    pub coordinates_cache: ButtonManifest,
    pub live_status: GameStatusCache,
    pub cfg: DetectorConfig,
    pub pos_cfg: PositionReaderConfig,
    pub map_cfg: MapReaderConfig,
    pub nav_cfg: NavConfig,
    pub item_ocr_cfg: ItemOcrConfig,
    pub text_ocr_cfg: TextOcrConfig,
    pub templates: Vec<MonsterTemplate>,
    pub digit_templates: Vec<DigitTemplate>,
    /// The map plaque was saved.
    pub dumped_map_debug: bool,
    /// The position area was saved, or need not be.
    pub dumped_position_debug: bool,
    /// Before this time no walk is tried.
    pub map_nav_retry_after: Option<u64>,
    /// Candidate boxes are saved in every round.
    pub debug_monster: bool,
    /// Where the close button of the map was last found.
    pub close_map_button_cache: Option<(i32, i32)>,
}

/// No walk is tried at time `now`.
pub open spec fn is_cooling(retry_after: Option<u64>, now: u64) -> bool {
    match retry_after {
        Some(t) => now < t,
        None => false,
    }
}

/// Until when no walk is tried, after one that ended at time `now`: a walk that failed
/// is tried again after a while, not given up for good.
pub open spec fn retry_after_walk(
    retry_after: Option<u64>,
    outcome: NavOutcome,
    now: u64,
) -> Option<u64> {
    match outcome {
        NavOutcome::Walking => None,
        NavOutcome::Unsupported => Some(
            (if now + MAP_NAV_RETRY_COOLDOWN <= u64::MAX {
                now + MAP_NAV_RETRY_COOLDOWN
            } else {
                u64::MAX as int
            }) as u64,
        ),
        NavOutcome::Failed => retry_after,
    }
}

impl App {
    /// The state at the start of a session. The position area is to be saved once where
    /// there are no digit templates yet, the map plaque in any case.
    pub fn init(
        dir: &ProjectDir,
        coordinates_cache: ButtonManifest,
        config: Option<AppConfig>,
        templates: Vec<MonsterTemplate>,
        digit_templates: Vec<DigitTemplate>,
        debug_monster: bool,
    ) -> (r: App)
        requires
            dir.is_usable(),
        ensures
            r.coordinates_cache == coordinates_cache,
            r.live_status@ == game_status::configured(game_status::blank_status(), config),
            r.cfg.is_default(),
            r.pos_cfg.is_default(),
            r.map_cfg.is_default(),
            r.nav_cfg.is_default_in(*dir),
            r.item_ocr_cfg.is_default(),
            r.text_ocr_cfg.is_default(),
            r.templates == templates,
            r.digit_templates == digit_templates,
            !r.dumped_map_debug,
            r.dumped_position_debug == (digit_templates@.len() > 0),
            r.map_nav_retry_after is None,
            r.debug_monster == debug_monster,
            r.close_map_button_cache is None,
    {
        let dumped_position_debug: bool = digit_templates.len() > 0;
        App {
            coordinates_cache,
            live_status: GameStatusCache::new(config),
            cfg: DetectorConfig::default(),
            pos_cfg: PositionReaderConfig::default(),
            map_cfg: MapReaderConfig::default(),
            nav_cfg: NavConfig::default_in(dir),
            item_ocr_cfg: ItemOcrConfig::default(),
            text_ocr_cfg: TextOcrConfig::default(),
            templates,
            digit_templates,
            dumped_map_debug: false,
            dumped_position_debug,
            map_nav_retry_after: None,
            debug_monster,
            close_map_button_cache: None,
        }
    }

    /// Whether the position area is to be saved now. It is never asked for again.
    pub fn dump_position_debug_once(&mut self) -> (dump: bool)
        ensures
            dump == !old(self).dumped_position_debug,
            *final(self) == (App { dumped_position_debug: true, ..*old(self) }),
    {
        let dump: bool = !self.dumped_position_debug;
        self.dumped_position_debug = true;
        dump
    }

    /// Whether the map plaque is to be saved now. It is never asked for again.
    pub fn dump_map_debug_once(&mut self) -> (dump: bool)
        ensures
            dump == !old(self).dumped_map_debug,
            *final(self) == (App { dumped_map_debug: true, ..*old(self) }),
    {
        let dump: bool = !self.dumped_map_debug;
        self.dumped_map_debug = true;
        dump
    }

    /// Whether no walk is tried at time `now`.
    pub fn navigation_is_cooling(&self, now: u64) -> (r: bool)
        ensures
            r == is_cooling(self.map_nav_retry_after, now),
    {
        match self.map_nav_retry_after {
            Some(t) => now < t,
            None => false,
        }
    }

    /// Takes the end of a walk at time `now` into account.
    pub fn navigation_ended(&mut self, outcome: NavOutcome, now: u64)
        ensures
            *final(self) == (App {
                map_nav_retry_after: retry_after_walk(
                    old(self).map_nav_retry_after,
                    outcome,
                    now,
                ),
                ..*old(self)
            }),
    {
        match outcome {
            NavOutcome::Walking => {
                self.map_nav_retry_after = None;
            },
            NavOutcome::Unsupported => {
                self.map_nav_retry_after = Some(now.saturating_add(MAP_NAV_RETRY_COOLDOWN));
            },
            NavOutcome::Failed => {},
        }
    }

    /// Where the close button of the map is, from what was just found and what is
    /// remembered, which is then remembered.
    pub fn locate_close_button(&mut self, found: Option<(i32, i32)>) -> (p: Option<(i32, i32)>)
        ensures
            p == map_nav::known_button(found, old(self).close_map_button_cache),
            *final(self) == (App { close_map_button_cache: p, ..*old(self) }),
    {
        self.close_map_button_cache = map_nav::close_big_map(found, self.close_map_button_cache);
        self.close_map_button_cache
    }
}

/// After a walk that failed, none is tried until the cooldown is over, and from then on
/// one may be tried again; a walk that went well leaves no cooldown.
pub proof fn law_a_failed_walk_is_tried_again(retry_after: Option<u64>, now: u64, later: u64)
    requires
        now + MAP_NAV_RETRY_COOLDOWN <= u64::MAX,
        now <= later,
    ensures
        is_cooling(retry_after_walk(retry_after, NavOutcome::Unsupported, now), later) <==> later
            < now + MAP_NAV_RETRY_COOLDOWN,
        !is_cooling(retry_after_walk(retry_after, NavOutcome::Walking, now), later),
        is_cooling(retry_after_walk(retry_after, NavOutcome::Failed, now), later) == is_cooling(
            retry_after,
            later,
        ),
{
}

/// Once the close button was found, it stays known however many later searches fail.
pub proof fn law_a_found_close_button_stays_known(
    found: (i32, i32),
    remembered: Option<(i32, i32)>,
    later: Option<(i32, i32)>,
)
    ensures
        map_nav::known_button(Some(found), remembered) == Some(found),
        map_nav::known_button(None, map_nav::known_button(Some(found), remembered)) == Some(found),
        map_nav::known_button(later, Some(found)) is Some,
{
}

/// After a walk that failed no other is tried for ten seconds, and from then on one may be.
pub proof fn law_the_cooldown_lasts_ten_seconds(retry_after: Option<u64>, now: u64, later: u64)
    requires
        now + 10000000000 <= u64::MAX,
    ensures
        is_cooling(retry_after_walk(retry_after, NavOutcome::Unsupported, now), later) <==> later
            < now + 10000000000,
        retry_after_walk(retry_after, NavOutcome::Walking, now) is None,
        retry_after_walk(retry_after, NavOutcome::Failed, now) == retry_after,
        !is_cooling(None, later),
{
}

} // verus!
