//! Decision core of a screen-reading game helper.
pub mod app;
pub mod asset_loader;
pub mod best_match;
pub mod bot_loop;
pub mod clock;
pub mod distance;
pub mod double;
pub mod edits;
pub mod find_window;
pub mod game_status;
pub mod geometry;
pub mod item_ocr;
pub mod map_matcher;
pub mod map_nav;
pub mod match_icon;
pub mod monster_detector;
pub mod monster_matcher;
pub mod position_reader;
pub mod quit_game_bot;
pub mod recognition_report;
pub mod rounding;
pub mod score;
pub mod screen;
pub mod startup;
pub mod test_modes;
pub mod text;
pub mod text_ocr;
pub mod util;
pub mod whitelist;
