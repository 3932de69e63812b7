use game_bot::app::{App, MAP_NAV_RETRY_COOLDOWN, STUCK_CHECK_INTERVAL, STUCK_MOVE_EPSILON};
use game_bot::asset_loader::{
    create_button_manifest, load_and_cache_assets, ButtonManifest, BUTTON_CONFIDENCE_BITS,
};
use game_bot::bot_loop::{run_one_frame, wait_after, FrameAction, FrameReading, TextReading};
use game_bot::distance::{distance_between, Tolerance};
use game_bot::find_window::{
    find_game_window, first_candidate, require_game_window, WindowInfo, WindowSearch,
};
use game_bot::game_status::{
    default_true, AppConfig, EntityInfo, GameStatusCache, HuntingConfig, LoggingConfig, LootConfig,
    MovementStatus,
};
use game_bot::geometry::Rect;
use game_bot::map_nav::{
    close_big_map, collect_pixels, compute_canvas_rect, drawn_point, largest_component,
    navigate_to_random_point, open_big_map, pick_random_walkable_point, target_point,
    walkable_points, NavAction, NavConfig, NavEvent, NavOutcome, NavStage,
};
use game_bot::position_reader::DigitTemplate;
use game_bot::quit_game_bot::{QuitAction, QuitWatchdog, QUIT_HOLD_NANOS};
use game_bot::score::Score;
use game_bot::screen::{compute_scale_factor, WindowFrame};
use game_bot::startup::{self, StartAction, StartEvent, StartStage};
use game_bot::test_modes::{can_run, select_mode, TestMode};
use game_bot::text_ocr::RawTextBlock;
use game_bot::util;
use game_bot::util::ProjectDir;
use game_bot::whitelist::Whitelist;

const SECOND: u64 = 1_000_000_000;

fn score(value: f32) -> Score {
    Score { bits: value.to_bits() }
}

fn project() -> ProjectDir {
    ProjectDir { root: "/home/me/bot".to_string(), separator: '/' }
}

fn frame() -> WindowFrame {
    WindowFrame { x: 100, y: 50, width: 1500, height: 858 }
}

fn located(pick_up: bool) -> ButtonManifest {
    let scale = compute_scale_factor(&frame(), 3000, 1716, 1);
    let manifest = create_button_manifest(&project());
    let mut buttons: ButtonManifest =
        load_and_cache_assets(manifest, &frame(), &scale, &[Some((2800, 1600)), Some((2600, 1500))])
            .unwrap();
    if !pick_up {
        buttons.buttons.pop();
    }
    buttons
}

fn config() -> AppConfig {
    AppConfig {
        hunting: HuntingConfig {
            target_monsters: vec![" 炎魔 ".to_string(), "地火兽骑将".to_string(), "炎魔".to_string()],
            hp_protect_line: 30,
        },
        loot: LootConfig { target_items: vec!["治疗药水".to_string()] },
        logging: LoggingConfig { capture: false, ..LoggingConfig::default() },
    }
}

fn session(pick_up: bool) -> App {
    App::init(&project(), located(pick_up), Some(config()), Vec::new(), Vec::new(), false)
}

fn block(text: &str, x: i32, y: i32) -> RawTextBlock {
    RawTextBlock { text: text.to_string(), confidence: score(0.9), x, y, w: 80, h: 30 }
}

fn reading(text: TextReading, position: Option<(i32, i32)>, now: u64) -> FrameReading {
    FrameReading { width: 3000, height: 1716, position, candidate_boxes: 0, text, now }
}

#[test]
fn paths_are_joined_to_the_project() {
    let dir: ProjectDir = project();
    assert_eq!(util::get_secure_template_path(&dir, "attack.png"), "/home/me/bot/templates/icons/attack.png");
    assert_eq!(util::get_monster_name_template_dir(&dir), "/home/me/bot/templates/monster_names");
    assert_eq!(util::get_debug_crop_dir(&dir), "/home/me/bot/DEBUG_MONSTER_CROPS");
    assert_eq!(util::get_digit_template_dir(&dir), "/home/me/bot/templates/digits");
    assert_eq!(util::get_debug_position_roi_path(&dir), "/home/me/bot/DEBUG_POSITION_ROI.png");
    assert_eq!(util::get_debug_digit_crop_dir(&dir), "/home/me/bot/DEBUG_DIGIT_CROPS");
    assert_eq!(util::get_map_name_template_dir(&dir), "/home/me/bot/templates/map_names");
    assert_eq!(util::get_debug_map_roi_path(&dir), "/home/me/bot/DEBUG_MAP_ROI.png");
    let win: ProjectDir = ProjectDir { root: "C:\\bot".to_string(), separator: '\\' };
    assert_eq!(util::get_digit_template_dir(&win), "C:\\bot\\templates\\digits");
}

#[test]
fn paths_are_joined_as_the_standard_library_joins_them() {
    for root in ["/a/b", "/a/b/", "", "rel", "/"] {
        for part in ["x", "x.png", "/abs", ""] {
            let mut path: std::path::PathBuf = std::path::PathBuf::from(root);
            path.push(part);
            assert_eq!(util::join_path(root, '/', part), path.to_string_lossy().into_owned());
        }
    }
}

#[test]
fn windows_paths_take_either_separator() {
    assert_eq!(util::join_path("C:\\bot", '\\', "x"), "C:\\bot\\x");
    assert_eq!(util::join_path("C:\\bot\\", '\\', "x"), "C:\\bot\\x");
    assert_eq!(util::join_path("C:/bot/", '\\', "x"), "C:/bot/x");
    assert_eq!(util::join_path("C:\\", '\\', "x"), "C:\\x");
    let usable = |root: &str| ProjectDir { root: root.to_string(), separator: '\\' }.usable();
    assert!(usable("C:\\bot") && usable("C:/") && usable("\\\\server\\share") && usable("C:"));
    assert!(!usable("\\\\?\\C:\\bot") && !usable("\\\\?"));
    assert!(ProjectDir { root: "\\\\?\\C:".to_string(), separator: '/' }.usable());
}

#[test]
fn windows_drives_and_roots_are_joined() {
    assert_eq!(util::join_path("C:", '\\', "x"), "C:x");
    assert_eq!(util::join_path("C:", '\\', "..\\foo"), "C:..\\foo");
    assert_eq!(util::join_path("C:\\a", '\\', "D:x"), "D:x");
    assert_eq!(util::join_path("C:\\a", '\\', "D:\\x"), "D:\\x");
    assert_eq!(util::join_path("C:\\a\\b", '\\', "\\x"), "C:\\x");
    assert_eq!(util::join_path("C:\\a\\b", '\\', "/x"), "C:/x");
    assert_eq!(util::join_path("a\\b", '\\', "\\x"), "\\x");
    assert_eq!(util::join_path("\\\\server\\share", '\\', "x"), "\\\\server\\share\\x");
    assert_eq!(util::join_path("/a", '/', "C:x"), "/a/C:x");
    let drive: ProjectDir = ProjectDir { root: "C:".to_string(), separator: '\\' };
    assert_eq!(util::get_digit_template_dir(&drive), "C:templates\\digits");
    assert_eq!(util::get_secure_template_path(&drive, "\\x.png"), "C:\\x.png");
}

#[test]
fn alpha_is_dropped_from_screenshots() {
    let img = util::rgba_to_rgb(&[1, 2, 3, 255, 4, 5, 6, 0, 9], 2, 1);
    assert_eq!((img.width, img.height), (2, 1));
    assert_eq!(img.pixels, vec![1, 2, 3, 4, 5, 6]);
    assert!(util::rgb_image(2, 2, vec![0; 11]).is_none());
    assert_eq!(util::rgb_image(1, 1, vec![7, 8, 9]).unwrap().pixels, vec![7, 8, 9]);
}

fn window(title: &str, minimized: bool) -> WindowInfo {
    WindowInfo { title: title.to_string(), minimized }
}

#[test]
fn the_game_window_is_found_in_any_case() {
    let windows: Vec<WindowInfo> = vec![
        window("Editor", false),
        window("24LULING - 1", true),
        window("My 24LuLing Ünit", false),
        window("24luling", false),
    ];
    assert_eq!(find_game_window(&windows, "24Luling"), Some(2));
    assert_eq!(find_game_window(&windows, "ÜNIT"), Some(2));
    assert_eq!(find_game_window(&windows, "editor"), Some(0));
    assert_eq!(find_game_window(&windows, "nothing"), None);
    assert_eq!(find_game_window(&[], "24luling"), None);
}

#[test]
fn candidates_are_compared_letter_by_letter() {
    let titles: Vec<String> = vec!["abc".to_string(), "xbcx".to_string()];
    assert_eq!(first_candidate(&titles, &[false, false], "bc"), Some(0));
    assert_eq!(first_candidate(&titles, &[true, false], "bc"), Some(1));
    assert_eq!(first_candidate(&titles, &[false, false], "BC"), None);
}

fn run(events: &[StartEvent]) -> (StartStage, Vec<StartAction>) {
    let mut stage: StartStage = startup::begin();
    let mut actions: Vec<StartAction> = Vec::new();
    for event in events {
        let (next, action) = startup::next_step(stage, *event);
        stage = next;
        actions.push(action);
    }
    (stage, actions)
}

#[test]
fn the_buttons_are_located_before_the_window_is_clicked() {
    let shown = WindowFrame { x: 10, y: 20, width: 70, height: 25 };
    let (stage, actions) = run(&[
        StartEvent::Searched { found: None },
        StartEvent::Clicked,
        StartEvent::Located { window: shown },
        StartEvent::Searched { found: Some(4) },
        StartEvent::Located { window: shown },
        StartEvent::Located { window: shown },
        StartEvent::Clicked,
        StartEvent::ButtonsMissing,
    ]);
    assert_eq!(
        actions,
        vec![
            StartAction::SearchAgain { wait_ms: 2000 },
            StartAction::Nothing,
            StartAction::Nothing,
            StartAction::LocateButtons { window: 4 },
            StartAction::Click { at: (45, 32), wait_ms: 300 },
            StartAction::Nothing,
            StartAction::Load,
            StartAction::Nothing,
        ]
    );
    assert_eq!(stage, StartStage::Loading);
}

#[test]
fn a_start_without_the_buttons_exits_without_a_click() {
    let (stage, actions) = run(&[
        StartEvent::Searched { found: Some(0) },
        StartEvent::ButtonsMissing,
        StartEvent::Located { window: WindowFrame { x: 0, y: 0, width: 4, height: 4 } },
        StartEvent::Clicked,
    ]);
    assert_eq!(
        actions,
        vec![
            StartAction::LocateButtons { window: 0 },
            StartAction::Exit { wait_ms: 0, code: 1 },
            StartAction::Nothing,
            StartAction::Nothing,
        ]
    );
    assert_eq!(stage, StartStage::Ended);
}

#[test]
fn a_start_without_the_window_exits_after_five_searches() {
    let missing = StartEvent::Searched { found: None };
    let (stage, actions) = run(&[missing; 5]);
    assert_eq!(actions[..4], [StartAction::SearchAgain { wait_ms: 2000 }; 4]);
    assert_eq!(actions[4], StartAction::Exit { wait_ms: 2000, code: 1 });
    assert_eq!(stage, StartStage::Ended);
    assert_eq!(run(&[missing; 4]).0, StartStage::Searching { attempt: 5 });
}

#[test]
fn the_search_gives_up_after_five_attempts() {
    for attempt in 1..5 {
        assert_eq!(require_game_window(attempt, None), WindowSearch::RetryAfter(2000));
    }
    assert_eq!(require_game_window(5, None), WindowSearch::GiveUpAfter(2000));
    assert_eq!(require_game_window(5, Some(3)), WindowSearch::Found(3));
}

#[test]
fn two_buttons_are_needed() {
    let manifest: ButtonManifest = create_button_manifest(&project());
    assert_eq!(manifest.buttons.len(), 2);
    let attack = manifest.get("attack").unwrap();
    assert_eq!(attack.name, "大剑普通攻击");
    assert_eq!(attack.template_path, "/home/me/bot/templates/icons/attack.png");
    assert_eq!(attack.min_confidence, score(0.55));
    assert_eq!(BUTTON_CONFIDENCE_BITS, 0.55f32.to_bits());
    assert_eq!(attack.screen_x, None);
    let pick_up = manifest.get("pick_up").unwrap();
    assert_eq!(pick_up.name, "自动拾取");
    assert_eq!(pick_up.template_path, "/home/me/bot/templates/icons/pick_up.png");
    assert!(manifest.get("jump").is_none());
    assert_eq!(manifest.click_point("attack"), None);
}

#[test]
fn buttons_are_located_together_or_not_at_all() {
    let buttons: ButtonManifest = located(true);
    assert_eq!(buttons.click_point("attack"), Some((1500, 850)));
    assert_eq!(buttons.click_point("pick_up"), Some((1400, 800)));
    assert_eq!(buttons.get("attack").unwrap().name, "大剑普通攻击");
    let scale = compute_scale_factor(&frame(), 3000, 1716, 1);
    assert!(load_and_cache_assets(
        create_button_manifest(&project()),
        &frame(),
        &scale,
        &[Some((2800, 1600)), None]
    )
    .is_none());
    let far = WindowFrame { x: i32::MAX, y: 0, width: 1500, height: 858 };
    assert!(load_and_cache_assets(
        create_button_manifest(&project()),
        &far,
        &scale,
        &[Some((2800, 1600)), Some((1, 1))]
    )
    .is_none());
}

#[test]
fn configurations_fill_the_whitelists() {
    let mut status: GameStatusCache = GameStatusCache::new(None);
    assert_eq!(status.allowed_monster_set.len(), 0);
    assert_eq!(status.logging, LoggingConfig::default());
    assert!(default_true() && status.logging.capture && status.logging.status);
    assert!(status.load_all_config_whitelists(Some(config())));
    assert_eq!(status.allowed_monster_set.len(), 2);
    assert!(status.allowed_monster_set.contains("炎魔"));
    assert!(status.allowed_item_set.contains("治疗药水"));
    assert!(!status.logging.capture && status.logging.movement);
    assert!(!status.load_all_config_whitelists(None));
    assert_eq!(status.allowed_monster_set.len(), 2);
}

#[test]
fn readings_replace_what_was_known() {
    let mut status: GameStatusCache = GameStatusCache::default();
    status.update_position(3, -4);
    status.update_map_name("心之魔域".to_string());
    let seen = EntityInfo { name: "炎魔".to_string(), screen_x: 1, screen_y: 2, confidence: score(0.9) };
    status.update_monsters(vec![seen.clone(), seen.clone()]);
    status.update_items(vec![seen.clone()]);
    status.update_monsters(vec![seen]);
    assert_eq!((status.player_x, status.player_y), (3, -4));
    assert_eq!(status.map_name, "心之魔域");
    assert_eq!((status.active_monsters.len(), status.active_items.len()), (1, 1));
    assert_eq!(status.hp_percent, 0);
}

fn tolerance(number: f64) -> Tolerance {
    Tolerance { bits: number.to_bits() }
}

/// The judgement after two positions.
fn judged(from: (i32, i32), to: (i32, i32), epsilon: f64) -> MovementStatus {
    let mut status: GameStatusCache = GameStatusCache::default();
    status.check_movement_status(Some(from), tolerance(epsilon), 0, 0);
    status.check_movement_status(Some(to), tolerance(epsilon), 0, 0)
}

#[test]
fn movement_is_judged_once_an_interval() {
    let mut status: GameStatusCache = GameStatusCache::default();
    let mut check = |position: Option<(i32, i32)>, now: u64| {
        status.check_movement_status(position, tolerance(5.0), STUCK_CHECK_INTERVAL, now)
    };
    assert_eq!(check(None, 0), MovementStatus::NoPosition);
    assert_eq!(check(Some((10, 10)), SECOND), MovementStatus::FirstObservation);
    assert_eq!(check(Some((90, 90)), 2 * SECOND), MovementStatus::Cooling);
    assert_eq!(check(None, 3 * SECOND), MovementStatus::NoPosition);
    assert_eq!(check(Some((10, 10)), 5 * SECOND - 1), MovementStatus::Cooling);
    assert_eq!(check(Some((13, 14)), 5 * SECOND), MovementStatus::Moving);
    assert_eq!(check(Some((13, 14)), 6 * SECOND), MovementStatus::Cooling);
    assert_eq!(check(Some((16, 17)), 9 * SECOND), MovementStatus::Stalled);
    assert_eq!(check(Some((16, 17)), 4 * SECOND), MovementStatus::Cooling);
    status.reset_movement_check();
    let again = status.check_movement_status(Some((16, 17)), tolerance(5.0), STUCK_CHECK_INTERVAL, 60 * SECOND);
    assert_eq!(again, MovementStatus::FirstObservation);
}

#[test]
fn distances_are_compared_as_floats_are() {
    for dx in -12..=12i32 {
        for dy in -12..=12i32 {
            for quarters in 0..48u32 {
                let epsilon: f64 = quarters as f64 / 4.0;
                let status = judged((100, 100), (100 + dx, 100 + dy), epsilon);
                let near: bool = ((dx * dx + dy * dy) as f64).sqrt() < epsilon;
                assert_eq!(status == MovementStatus::Stalled, near);
                assert_eq!(status == MovementStatus::Moving, !near);
            }
        }
    }
    assert_eq!(judged((i32::MIN, i32::MIN), (i32::MAX, i32::MAX), 5.0), MovementStatus::Moving);
}

#[test]
fn distances_are_rounded_as_floats_are() {
    let mut seed: u64 = 88172645463325252;
    let mut random = || {
        seed ^= seed << 13;
        seed ^= seed >> 7;
        seed ^= seed << 17;
        seed
    };
    for _ in 0..20000 {
        let shift: u64 = random() % 31;
        let dx: i32 = (random() as i32) >> shift;
        let dy: i32 = (random() as i32) >> (random() % 31);
        let (x, y): (f64, f64) = (dx as f64, dy as f64);
        let dist: f64 = (x * x + y * y).sqrt();
        let neighbours: [f64; 3] =
            [dist, f64::from_bits(dist.to_bits() + 1), f64::from_bits(dist.to_bits().max(1) - 1)];
        for epsilon in neighbours {
            let expected: bool = dist < epsilon;
            assert_eq!(judged((0, 0), (dx, dy), epsilon) == MovementStatus::Stalled, expected);
        }
        let units: f64 = distance_between((0, 0), (dx, dy)) as f64;
        assert_eq!(units / 4503599627370496.0, dist);
    }
}

#[test]
fn a_rounded_distance_reaches_a_large_tolerance() {
    assert_eq!(judged((0, 0), (134217728, 16384), 134217729.0), MovementStatus::Moving);
    assert_eq!(judged((0, 0), (134217728, 16383), 134217729.0), MovementStatus::Stalled);
}

#[test]
fn odd_tolerances_are_compared_as_numbers() {
    let here: (i32, i32) = (7, 7);
    for epsilon in [0.0, -0.0, -1.0, f64::NAN, -f64::NAN, f64::NEG_INFINITY] {
        assert_eq!(judged(here, here, epsilon), MovementStatus::Moving);
        assert_eq!(judged(here, (9, 9), epsilon), MovementStatus::Moving);
    }
    for epsilon in [f64::INFINITY, f64::MAX, 1e300, 1e20] {
        assert_eq!(judged((i32::MIN, i32::MIN), (i32::MAX, i32::MAX), epsilon), MovementStatus::Stalled);
    }
    for epsilon in [f64::from_bits(1), f64::MIN_POSITIVE, 1e-300, 0.5, 1.0] {
        assert_eq!(judged(here, here, epsilon), MovementStatus::Stalled);
        assert_eq!(judged(here, (7, 8), epsilon), MovementStatus::Moving);
    }
    assert_eq!(f64::from_bits(STUCK_MOVE_EPSILON), 5.0);
}

#[test]
fn a_status_is_copied_whole() {
    let mut status: GameStatusCache = GameStatusCache::default();
    let item = EntityInfo { name: "灵药".to_string(), screen_x: 5, screen_y: 6, confidence: score(0.5) };
    status.update_position(1, 2);
    status.update_map_name("心之魔域".to_string());
    status.update_items(vec![item]);
    status.allowed_item_set = Whitelist::from_names(&vec!["灵药".to_string(), "草药".to_string()]);
    status.check_movement_status(Some((1, 2)), tolerance(5.0), STUCK_CHECK_INTERVAL, SECOND);
    let mut copy: GameStatusCache = status.clone();
    assert_eq!((copy.player_x, copy.player_y, copy.map_name.as_str()), (1, 2, "心之魔域"));
    assert_eq!((copy.active_monsters.len(), copy.active_items.len()), (0, 1));
    assert_eq!((copy.active_items[0].name.as_str(), copy.active_items[0].screen_y), ("灵药", 6));
    assert_eq!((copy.allowed_item_set.len(), copy.allowed_monster_set.len()), (2, 0));
    assert!(copy.allowed_item_set.contains("草药"));
    let later = copy.check_movement_status(Some((1, 2)), tolerance(5.0), STUCK_CHECK_INTERVAL, 2 * SECOND);
    assert_eq!(later, MovementStatus::Cooling);
}

#[test]
fn the_map_is_opened_at_its_share_of_the_window() {
    let cfg: NavConfig = NavConfig::default_in(&project());
    assert_eq!(cfg.close_button_template, "/home/me/bot/templates/icons/close_map.png");
    assert_eq!(cfg.close_button_min_confidence, score(0.5));
    assert_eq!((cfg.denoise_kernel_size, cfg.erode_margin_kernel_size), (7, 15));
    let expected: (i32, i32) = (100 + (1500f64 * 0.90) as i32, 50 + (858f64 * 0.16) as i32);
    assert_eq!(open_big_map(&frame(), &cfg), Some(expected));
    let far = WindowFrame { x: i32::MAX, y: 0, width: 10, height: 10 };
    assert_eq!(open_big_map(&far, &cfg), None);
    assert_eq!(compute_canvas_rect(3000, 1716, &cfg), Rect { x: 434, y: 574, w: 1652, h: 830 });
}

#[test]
fn the_largest_component_is_walked_in() {
    assert_eq!(largest_component(&[]), None);
    assert_eq!(largest_component(&[500]), None);
    assert_eq!(largest_component(&[500, 3, 9, 9, 4]), Some(2));
    assert_eq!(largest_component(&[500, 0, 0]), Some(1));
    assert_eq!(largest_component(&[500, -1, 2]), Some(2));
}

#[test]
fn pixels_are_collected_row_by_row() {
    let mask: [u8; 6] = [0, 255, 0, 1, 0, 255];
    assert_eq!(collect_pixels(&mask, 3, 2), vec![(1, 0), (0, 1), (2, 1)]);
    assert_eq!(collect_pixels(&[], 0, 7), vec![]);
    assert_eq!(walkable_points(&mask, &[255; 6], 3, 2).len(), 3);
    assert_eq!(walkable_points(&[0; 6], &mask, 3, 2), vec![(1, 0), (0, 1), (2, 1)]);
    assert_eq!(walkable_points(&[0; 6], &[0; 6], 3, 2), vec![]);
    assert_eq!(drawn_point(&[(1, 0), (0, 1)], 1), Some((0, 1)));
    assert_eq!(drawn_point(&[(1, 0), (0, 1)], 2), None);
}

#[test]
fn random_points_are_walkable_and_vary() {
    let mask: Vec<u8> = (0..400).map(|i| if i % 7 == 0 { 255 } else { 0 }).collect();
    let mut seen: Vec<(i32, i32)> = Vec::new();
    for _ in 0..200 {
        let p: (i32, i32) = pick_random_walkable_point(&mask, &[255; 400], 20, 20).unwrap();
        assert_eq!((p.1 * 20 + p.0) % 7, 0);
        if !seen.contains(&p) {
            seen.push(p);
        }
    }
    assert!(seen.len() > 1);
    assert_eq!(pick_random_walkable_point(&[0; 4], &[0, 0, 0, 1], 2, 2), Some((1, 1)));
    assert_eq!(pick_random_walkable_point(&[0; 4], &[0; 4], 2, 2), None);
}

#[test]
fn targets_are_shown_on_the_screen() {
    let scale = compute_scale_factor(&frame(), 3000, 1716, 1);
    let canvas: Rect = Rect { x: 435, y: 574, w: 1653, h: 830 };
    assert_eq!(
        target_point(&frame(), &scale, &canvas, (65, 26)),
        Some((100 + 250, 50 + 300))
    );
}

#[test]
fn a_close_button_stays_known() {
    assert_eq!(close_big_map(Some((1, 2)), Some((3, 4))), Some((1, 2)));
    assert_eq!(close_big_map(None, Some((3, 4))), Some((3, 4)));
    assert_eq!(close_big_map(None, None), None);
    let mut app: App = session(true);
    assert_eq!(app.locate_close_button(None), None);
    assert_eq!(app.locate_close_button(Some((7, 8))), Some((7, 8)));
    assert_eq!(app.locate_close_button(None), Some((7, 8)));
}

fn walk(events: &[NavEvent]) -> (NavStage, Vec<NavAction>) {
    let mut stage: NavStage = NavStage::Idle;
    let mut actions: Vec<NavAction> = Vec::new();
    for event in events {
        let (next, action) = navigate_to_random_point(stage, *event);
        stage = next;
        actions.push(action);
    }
    (stage, actions)
}

#[test]
fn a_walk_opens_clicks_and_closes() {
    let (stage, actions) = walk(&[
        NavEvent::Start { open_at: (1, 2) },
        NavEvent::Captured { close_at: Some((3, 4)) },
        NavEvent::Chosen { target: Some((5, 6)) },
        NavEvent::Captured { close_at: Some((3, 4)) },
    ]);
    assert_eq!(stage, NavStage::Finished { outcome: NavOutcome::Walking });
    assert_eq!(
        actions,
        vec![
            NavAction::ClickAndCapture { at: (1, 2), wait_ms: 200 },
            NavAction::ChooseTarget,
            NavAction::ClickAndCapture { at: (5, 6), wait_ms: 100 },
            NavAction::Click { at: (3, 4), wait_ms: 200 },
        ]
    );
}

#[test]
fn a_walk_without_a_target_closes_the_map_all_the_same() {
    let (stage, actions) = walk(&[
        NavEvent::Start { open_at: (1, 2) },
        NavEvent::Captured { close_at: Some((3, 4)) },
        NavEvent::Chosen { target: None },
        NavEvent::Captured { close_at: Some((3, 4)) },
    ]);
    assert_eq!(stage, NavStage::Finished { outcome: NavOutcome::Unsupported });
    assert_eq!(actions[2], NavAction::Capture);
    assert_eq!(actions[3], NavAction::Click { at: (3, 4), wait_ms: 200 });
}

#[test]
fn a_walk_ends_where_the_map_does_not_open() {
    let unsupported = NavStage::Finished { outcome: NavOutcome::Unsupported };
    let start = NavEvent::Start { open_at: (1, 2) };
    assert_eq!(walk(&[start, NavEvent::CaptureFailed]).0, unsupported);
    assert_eq!(walk(&[start, NavEvent::Captured { close_at: None }]).0, unsupported);
    let failed = walk(&[start, NavEvent::Captured { close_at: Some((3, 4)) }, NavEvent::Error]);
    assert_eq!(failed.0, NavStage::Finished { outcome: NavOutcome::Failed });
    let lost = walk(&[
        start,
        NavEvent::Captured { close_at: Some((3, 4)) },
        NavEvent::Chosen { target: Some((5, 6)) },
        NavEvent::Captured { close_at: None },
    ]);
    assert_eq!(lost.0, unsupported);
    assert_eq!(lost.1[3], NavAction::Nothing);
    let unseen = walk(&[
        start,
        NavEvent::Captured { close_at: Some((3, 4)) },
        NavEvent::Chosen { target: Some((5, 6)) },
        NavEvent::CaptureFailed,
    ]);
    assert_eq!(unseen.0, NavStage::Finished { outcome: NavOutcome::Walking });
    assert_eq!(unseen.1[3], NavAction::Click { at: (3, 4), wait_ms: 200 });
}

#[test]
fn only_a_long_press_quits() {
    let mut dog: QuitWatchdog = QuitWatchdog::new();
    assert_eq!(dog.observe(false, 0), QuitAction::Nothing);
    assert_eq!(dog.observe(true, 5 * SECOND), QuitAction::Pressed);
    assert_eq!(
        dog.observe(true, 5 * SECOND + 10_000_000),
        QuitAction::Held { elapsed: 10_000_000, announce: true, quit: false }
    );
    assert_eq!(
        dog.observe(true, 5 * SECOND + 20_000_000),
        QuitAction::Held { elapsed: 20_000_000, announce: false, quit: false }
    );
    assert_eq!(
        dog.observe(true, 5 * SECOND + 510_000_000),
        QuitAction::Held { elapsed: 510_000_000, announce: true, quit: false }
    );
    assert_eq!(dog.observe(false, 6 * SECOND), QuitAction::Released);
    assert_eq!(dog.observe(true, 7 * SECOND), QuitAction::Pressed);
    assert_eq!(
        dog.observe(true, 7 * SECOND + QUIT_HOLD_NANOS - 1),
        QuitAction::Held { elapsed: QUIT_HOLD_NANOS - 1, announce: false, quit: false }
    );
    assert_eq!(
        dog.observe(true, 7 * SECOND + QUIT_HOLD_NANOS),
        QuitAction::Held { elapsed: QUIT_HOLD_NANOS, announce: true, quit: true }
    );
}

#[test]
fn a_session_starts_with_its_defaults() {
    let mut app: App = session(true);
    assert_eq!(app.live_status.allowed_monster_set.len(), 2);
    assert!(!app.dumped_map_debug && !app.dumped_position_debug);
    assert!(app.dump_position_debug_once());
    assert!(!app.dump_position_debug_once());
    assert!(app.dump_map_debug_once());
    assert!(!app.dump_map_debug_once());
    let digits: Vec<DigitTemplate> = vec![DigitTemplate { label: "1".to_string(), cols: 5, rows: 9 }];
    let mut known: App = App::init(&project(), located(true), None, Vec::new(), digits, true);
    assert!(!known.dump_position_debug_once());
    assert!(known.debug_monster);
}

#[test]
fn a_failed_walk_is_tried_again_after_a_while() {
    let mut app: App = session(true);
    assert!(!app.navigation_is_cooling(0));
    app.navigation_ended(NavOutcome::Unsupported, SECOND);
    assert!(app.navigation_is_cooling(SECOND));
    app.navigation_ended(NavOutcome::Failed, 2 * SECOND);
    assert!(app.navigation_is_cooling(SECOND + MAP_NAV_RETRY_COOLDOWN - 1));
    assert!(!app.navigation_is_cooling(SECOND + MAP_NAV_RETRY_COOLDOWN));
    app.navigation_ended(NavOutcome::Unsupported, u64::MAX);
    assert_eq!(app.map_nav_retry_after, Some(u64::MAX));
    app.navigation_ended(NavOutcome::Walking, 3 * SECOND);
    assert!(!app.navigation_is_cooling(3 * SECOND));
}

#[test]
fn picking_up_comes_before_fighting() {
    let mut app: App = session(true);
    let blocks: Vec<RawTextBlock> =
        vec![block("炎魔", 500, 400), block("治疗药水", 700, 600), block("心之魔域", 2500, 60)];
    let action = run_one_frame(&mut app, &reading(TextReading::Blocks(blocks), Some((12, 34)), 0));
    assert_eq!(action, FrameAction::PickUp { at: (1400, 800) });
    assert_eq!((app.live_status.player_x, app.live_status.player_y), (12, 34));
    assert_eq!(app.live_status.map_name, "心之魔域");
    assert_eq!(app.live_status.active_items.len(), 1);
    assert_eq!(app.live_status.active_items[0].name, "治疗药水");
    assert_eq!(app.live_status.active_items[0].screen_x, 0);
    assert_eq!(app.live_status.active_monsters.len(), 0);
}

#[test]
fn fighting_comes_before_walking() {
    let mut app: App = session(false);
    let blocks: Vec<RawTextBlock> = vec![block("炎魔", 500, 400), block("治疗药水", 700, 600)];
    let action = run_one_frame(&mut app, &reading(TextReading::Blocks(blocks), Some((1, 1)), 0));
    assert_eq!(action, FrameAction::Attack { at: (1500, 850) });
    assert_eq!(app.live_status.active_items.len(), 1);
    assert_eq!(app.live_status.active_monsters.len(), 1);
    let seen = &app.live_status.active_monsters[0];
    assert_eq!((seen.name.as_str(), seen.screen_x, seen.screen_y), ("炎魔", 500, 400));
    app.coordinates_cache.buttons.clear();
    let again: Vec<RawTextBlock> = vec![block("炎魔", 500, 400)];
    let action = run_one_frame(&mut app, &reading(TextReading::Blocks(again), None, SECOND));
    assert_eq!(action, FrameAction::AttackButtonMissing);
}

#[test]
fn walking_waits_for_standing_still() {
    let mut app: App = session(true);
    let none = || TextReading::Blocks(Vec::new());
    let mut step = |position: Option<(i32, i32)>, now: u64| {
        run_one_frame(&mut app, &reading(none(), position, now))
    };
    assert_eq!(step(None, 0), FrameAction::Wait { status: MovementStatus::NoPosition });
    assert_eq!(step(Some((5, 5)), 0), FrameAction::Wait { status: MovementStatus::FirstObservation });
    assert_eq!(step(Some((5, 5)), SECOND), FrameAction::Wait { status: MovementStatus::Cooling });
    assert_eq!(step(Some((50, 5)), 4 * SECOND), FrameAction::Wait { status: MovementStatus::Moving });
    assert_eq!(step(Some((50, 5)), 8 * SECOND), FrameAction::Navigate);
    app.navigation_ended(NavOutcome::Unsupported, 8 * SECOND);
    let mut step = |position: Option<(i32, i32)>, now: u64| {
        run_one_frame(&mut app, &reading(none(), position, now))
    };
    assert_eq!(step(Some((50, 5)), 12 * SECOND), FrameAction::NavigationCooling);
    assert_eq!(step(Some((50, 5)), 18 * SECOND), FrameAction::Navigate);
}

#[test]
fn an_attack_forgets_the_last_position() {
    let mut app: App = session(true);
    let still = |now: u64| reading(TextReading::Blocks(Vec::new()), Some((5, 5)), now);
    run_one_frame(&mut app, &still(0));
    let fight = TextReading::Blocks(vec![block("炎魔", 500, 400)]);
    run_one_frame(&mut app, &reading(fight, Some((5, 5)), SECOND));
    assert_eq!(
        run_one_frame(&mut app, &still(9 * SECOND)),
        FrameAction::Wait { status: MovementStatus::FirstObservation }
    );
    assert_eq!(app.live_status.active_monsters.len(), 0);
}

#[test]
fn without_a_recogniser_any_candidate_is_attacked() {
    let mut app: App = session(true);
    let mut blind: FrameReading = reading(TextReading::Unavailable, None, 0);
    assert_eq!(run_one_frame(&mut app, &blind), FrameAction::Wait { status: MovementStatus::NoPosition });
    blind.candidate_boxes = 2;
    assert_eq!(run_one_frame(&mut app, &blind), FrameAction::Attack { at: (1500, 850) });
    let mut failed: FrameReading = reading(TextReading::Failed, None, 0);
    failed.candidate_boxes = 2;
    assert_eq!(run_one_frame(&mut app, &failed), FrameAction::Wait { status: MovementStatus::NoPosition });
}

#[test]
fn a_failed_reading_keeps_what_was_seen() {
    let mut app: App = session(false);
    let blocks: Vec<RawTextBlock> = vec![block("炎魔", 500, 400), block("治疗药水", 700, 600)];
    run_one_frame(&mut app, &reading(TextReading::Blocks(blocks), None, 0));
    run_one_frame(&mut app, &reading(TextReading::Failed, None, 0));
    assert_eq!(app.live_status.active_items.len(), 1);
    assert_eq!(app.live_status.active_monsters.len(), 1);
    run_one_frame(&mut app, &reading(TextReading::Blocks(Vec::new()), None, 0));
    assert_eq!(app.live_status.active_items.len(), 0);
    assert_eq!(app.live_status.active_monsters.len(), 0);
}

#[test]
fn a_round_that_picked_up_is_followed_at_once() {
    assert_eq!(wait_after(&FrameAction::PickUp { at: (1, 2) }), 0);
    assert_eq!(wait_after(&FrameAction::Attack { at: (1, 2) }), 1200);
    assert_eq!(wait_after(&FrameAction::Navigate), 1200);
    assert_eq!(wait_after(&FrameAction::Wait { status: MovementStatus::Moving }), 1200);
}

#[test]
fn modes_are_chosen_by_name() {
    assert_eq!(select_mode(None), TestMode::Full);
    assert_eq!(select_mode(Some("monster_capture")), TestMode::MonsterCapture);
    assert_eq!(select_mode(Some("monster_verify")), TestMode::MonsterVerify);
    assert_eq!(select_mode(Some("item")), TestMode::Item);
    assert_eq!(select_mode(Some("position")), TestMode::Position);
    assert_eq!(select_mode(Some("map")), TestMode::MapName);
    assert_eq!(select_mode(Some("Map")), TestMode::UnknownThenFull);
    assert!(!can_run(TestMode::Item, false) && can_run(TestMode::Item, true));
    assert!(!can_run(TestMode::MonsterVerify, false) && !can_run(TestMode::MapName, false));
    assert!(can_run(TestMode::Position, false) && can_run(TestMode::Full, false));
}
