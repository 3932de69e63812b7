use game_bot::best_match::{find_best, find_top};
use game_bot::double::Double;
use game_bot::geometry::Rect;
use game_bot::item_ocr;
use game_bot::item_ocr::ItemOcrConfig;
use game_bot::map_matcher;
use game_bot::map_matcher::MapReaderConfig;
use game_bot::monster_detector::{
    battle_region, canvas_sample, crop_rect, detect_canvas_top, detect_monster_names,
    looks_like_name, recover_oversized_blob, recovery_window, rgba_bytes_to_bgr_mat, BgrMat, Blob,
    DetectorConfig, TextBox,
};
use game_bot::monster_matcher::{identify_crop, template_name, MonsterTemplate};
use game_bot::position_reader;
use game_bot::position_reader::{
    char_crop, detect_char_boxes, digit_label, match_char, parse_position, read_position,
    DigitTemplate, PositionReaderConfig, DIGIT_CONFIDENCE_BITS,
};
use game_bot::recognition_report::{judge, RecognitionReport, Verdict, MATCH_CONFIDENCE_BITS};
use game_bot::score::Score;
use game_bot::text_ocr::{
    areas_can_be_told, chat_rect, mat_bgr_to_dynamic_image, match_items, match_map_name,
    match_monsters, painted_over, prepare_frame, ImageError, RawTextBlock, TextOcrConfig,
};
use game_bot::whitelist::Whitelist;

fn score(value: f32) -> Score {
    Score { bits: value.to_bits() }
}

fn names(list: &[&str]) -> Whitelist {
    Whitelist::from_names(&list.iter().map(|n| n.to_string()).collect())
}

fn block(text: &str, confidence: f32, x: i32, y: i32, w: i32, h: i32) -> RawTextBlock {
    RawTextBlock { text: text.to_string(), confidence: score(confidence), x, y, w, h }
}

fn blob(x: i32, y: i32, w: i32, h: i32, area: i32) -> Blob {
    Blob { x, y, w, h, area }
}

fn mean(value: f64) -> Double {
    Double::from_bits(value.to_bits()).unwrap()
}

#[test]
fn the_best_match_is_the_first_highest_above_zero() {
    let scores: Vec<Score> = vec![score(0.3), score(0.9), score(0.9), score(0.95)];
    assert_eq!(find_best(&[true, true, true, true], &scores), Some(3));
    assert_eq!(find_best(&[true, true, true, false], &scores), Some(1));
    assert_eq!(find_best(&[true, false, true, false], &scores), Some(2));
    assert_eq!(find_best(&[false, false, false, false], &scores), None);
    assert_eq!(find_best(&[true, true], &[score(-0.5), score(0.0)]), None);
    assert_eq!(find_best(&[true, true], &[score(f32::NAN), score(0.1)]), Some(1));
}

#[test]
fn the_top_match_is_the_first_highest_however_low() {
    let scores: Vec<Score> = vec![score(-0.5), score(-0.2), score(-0.2), score(-0.9)];
    assert_eq!(find_top(&[true, true, true, true], &scores), Some(1));
    assert_eq!(find_top(&[true, false, false, true], &scores), Some(0));
    assert_eq!(find_top(&[false, false, false, false], &scores), None);
    assert_eq!(find_top(&[], &[]), None);
    let odd: Vec<Score> = vec![score(f32::NAN), score(f32::NEG_INFINITY), score(f32::NAN)];
    assert_eq!(find_top(&[true, true, true], &odd), Some(1));
    assert_eq!(find_top(&[true, false, true], &odd), Some(0));
}

#[test]
fn template_files_name_their_monsters() {
    assert_eq!(template_name("地火兽骑将.png"), Some("地火兽骑将".to_string()));
    assert_eq!(template_name("a.b.png"), Some("a.b".to_string()));
    assert_eq!(template_name("炎魔.jpg"), None);
    assert_eq!(template_name("炎魔.PNG"), None);
    assert_eq!(template_name(".png"), None);
    assert_eq!(template_name("png"), None);
    assert_eq!(digit_label("7.png"), Some("7".to_string()));
    assert_eq!(digit_label("comma.png"), Some(",".to_string()));
    assert_eq!(digit_label("comma.txt"), None);
}

fn template(name: &str, cols: i32, rows: i32) -> MonsterTemplate {
    MonsterTemplate { name: name.to_string(), cols, rows }
}

#[test]
fn crops_are_identified_by_templates_that_fit() {
    let templates: Vec<MonsterTemplate> =
        vec![template("炎魔", 40, 20), template("鹿", 20, 20), template("巨人", 90, 20)];
    let scores: Vec<Score> = vec![score(0.6), score(0.8), score(0.99)];
    assert_eq!(identify_crop(60, 30, &templates, &scores), Some(("鹿".to_string(), score(0.8))));
    assert_eq!(identify_crop(90, 20, &templates, &scores), Some(("巨人".to_string(), score(0.99))));
    assert_eq!(identify_crop(60, 19, &templates, &scores), None);
    let low: Vec<Score> = vec![score(-0.5), score(0.0), score(0.99)];
    assert_eq!(identify_crop(40, 20, &templates, &low), Some(("鹿".to_string(), score(0.0))));
    assert_eq!(identify_crop(40, 20, &templates[..1], &low[..1]), Some(("炎魔".to_string(), score(-0.5))));
}

#[test]
fn crops_are_judged_by_name_and_confidence() {
    let templates: Vec<MonsterTemplate> = vec![template("炎魔", 40, 20), template("鹿", 20, 20)];
    let limit: Score = Score { bits: MATCH_CONFIDENCE_BITS };
    assert_eq!(limit, score(0.75));
    let good: [Score; 2] = [score(0.75), score(0.5)];
    assert!(matches!(judge(60, 30, "炎魔", &templates, &good, limit), Verdict::Correct));
    match judge(60, 30, "鹿", &templates, &good, limit) {
        Verdict::Misidentified { predicted, score: s } => {
            assert_eq!((predicted.as_str(), s), ("炎魔", score(0.75)));
        }
        other => panic!("{:?}", other),
    }
    match judge(60, 30, "炎魔", &templates, &[score(0.7), score(0.74)], limit) {
        Verdict::BelowThreshold { predicted, score: s } => {
            assert_eq!((predicted.as_str(), s), ("鹿", score(0.74)));
        }
        other => panic!("{:?}", other),
    }
    assert!(matches!(
        judge(60, 30, "炎魔", &templates, &[score(-0.5), score(-0.6)], limit),
        Verdict::BelowThreshold { .. }
    ));
    assert!(matches!(
        judge(60, 30, "炎魔", &templates, &[score(f32::NAN), score(f32::NAN)], limit),
        Verdict::BelowThreshold { .. }
    ));
    assert!(matches!(
        judge(5, 5, "炎魔", &templates, &good, limit),
        Verdict::NoComparableTemplate
    ));
}

#[test]
fn reports_are_sorted_and_add_up() {
    let mut report: RecognitionReport = RecognitionReport::new();
    report.enter("鹿");
    report.record("炎魔", &Verdict::Correct);
    report.record("鹿", &Verdict::NoComparableTemplate);
    report.record("炎魔", &Verdict::Misidentified { predicted: "鹿".to_string(), score: score(0.9) });
    report.record("炎魔王", &Verdict::Correct);
    report.enter("炎魔");
    report.enter("a");
    let rows: Vec<(&str, usize, usize)> =
        report.per_monster.iter().map(|r| (r.0.as_str(), r.1.total, r.1.correct)).collect();
    assert_eq!(rows, vec![("a", 0, 0), ("炎魔", 2, 1), ("炎魔王", 1, 1), ("鹿", 1, 0)]);
    assert_eq!((report.total, report.total_correct), (4, 2));
    let mut sorted: Vec<&str> = rows.iter().map(|r| r.0).collect();
    sorted.sort();
    assert_eq!(sorted, rows.iter().map(|r| r.0).collect::<Vec<&str>>());
}

#[test]
fn the_title_bar_ends_at_the_first_jump() {
    let rows: Vec<Double> = vec![mean(230.0), mean(231.5), mean(170.0), mean(20.0)];
    assert_eq!(detect_canvas_top(&rows), 2);
    assert_eq!(detect_canvas_top(&[mean(20.0), mean(80.0), mean(140.0)]), 0);
    assert_eq!(detect_canvas_top(&[mean(20.0), mean(80.25)]), 1);
    assert_eq!(detect_canvas_top(&[mean(20.0)]), 0);
    assert_eq!(detect_canvas_top(&[]), 0);
    assert_eq!(canvas_sample(3000, 1716), Rect { x: 0, y: 0, w: 800, h: 200 });
    assert_eq!(canvas_sample(640, 120), Rect { x: 0, y: 0, w: 640, h: 120 });
}

#[test]
fn the_battle_area_lies_below_the_title_bar() {
    let cfg: DetectorConfig = DetectorConfig::default();
    let plain: Rect = battle_region(3000, 1716, &[], &cfg).unwrap();
    assert_eq!(plain, Rect { x: 240, y: 343, w: 1800, h: (1716f64 * (0.62 - 0.20)) as i32 });
    assert_eq!(plain.w, (3000f64 * (0.68 - 0.08)) as i32);
    let mut rows: Vec<Double> = vec![mean(230.0); 56];
    rows.push(mean(30.0));
    let below: Rect = battle_region(3000, 1716, &rows, &cfg).unwrap();
    assert_eq!(below.y, 56 + (1660f64 * 0.20) as i32);
    assert_eq!(below.h, (1660f64 * (0.62 - 0.20)) as i32);
    let mut fixed: DetectorConfig = DetectorConfig::default();
    fixed.auto_crop_titlebar = false;
    assert_eq!(battle_region(3000, 1716, &rows, &fixed), Some(plain));
    fixed.roi_top_frac = Double::thousandths(1500);
    assert_eq!(battle_region(3000, 1716, &[], &fixed).unwrap().y, 2574);
    assert_eq!(battle_region(3000, i32::MAX, &[], &fixed).unwrap().y, i32::MAX);
    fixed.auto_crop_titlebar = true;
    assert_eq!(battle_region(3000, i32::MAX, &rows, &fixed), None);
}

#[test]
fn names_have_their_size_and_shape() {
    let cfg: DetectorConfig = DetectorConfig::default();
    assert!(looks_like_name(&blob(0, 0, 100, 30, 400), &cfg));
    assert!(!looks_like_name(&blob(0, 0, 100, 15, 400), &cfg));
    assert!(!looks_like_name(&blob(0, 0, 100, 55, 400), &cfg));
    assert!(!looks_like_name(&blob(0, 0, 30, 20, 400), &cfg));
    assert!(!looks_like_name(&blob(0, 0, 320, 30, 400), &cfg));
    assert!(!looks_like_name(&blob(0, 0, 100, 30, 150), &cfg));
    assert!(looks_like_name(&blob(0, 0, 39, 30, 151), &cfg));
    assert!(!looks_like_name(&blob(0, 0, 38, 30, 151), &cfg));
}

#[test]
fn oversized_components_are_retried() {
    let cfg: DetectorConfig = DetectorConfig::default();
    assert_eq!(recovery_window(&blob(50, 60, 100, 30, 400), 900, 700, &cfg), None);
    assert_eq!(recovery_window(&blob(50, 60, 20, 10, 90), 900, 700, &cfg), None);
    assert_eq!(
        recovery_window(&blob(50, 60, 330, 30, 400), 900, 700, &cfg),
        Some(Rect { x: 46, y: 56, w: 338, h: 38 })
    );
    assert_eq!(
        recovery_window(&blob(2, 60, 40, 55, 400), 900, 100, &cfg),
        Some(Rect { x: 0, y: 56, w: 48, h: 44 })
    );
    let window: Rect = Rect { x: 46, y: 56, w: 338, h: 38 };
    let parts: Vec<Blob> = vec![blob(1, 2, 100, 30, 400), blob(9, 9, 9, 9, 9)];
    let boxes: Vec<TextBox> = recover_oversized_blob(&parts, &window, &cfg, 240, 343);
    assert_eq!(boxes, vec![TextBox { x: 287, y: 401, w: 100, h: 30, area: 400 }]);
}

#[test]
fn detection_keeps_names_and_what_was_recovered() {
    let cfg: DetectorConfig = DetectorConfig::default();
    let roi: Rect = Rect { x: 240, y: 343, w: 1800, h: 720 };
    let blobs: Vec<Blob> =
        vec![blob(10, 20, 100, 30, 400), blob(5, 5, 5, 5, 5), blob(50, 60, 330, 30, 900)];
    let part: TextBox = TextBox { x: 300, y: 410, w: 90, h: 28, area: 300 };
    let stray: TextBox = TextBox { x: 1, y: 1, w: 1, h: 1, area: 1 };
    let recovered: Vec<Vec<TextBox>> = vec![vec![stray], vec![stray], vec![part, part]];
    let boxes: Vec<TextBox> = detect_monster_names(&blobs, &recovered, &roi, &cfg);
    assert_eq!(
        boxes,
        vec![TextBox { x: 250, y: 363, w: 100, h: 30, area: 400 }, part, part]
    );
}

#[test]
fn detected_boxes_lie_in_the_battle_area() {
    let cfg: DetectorConfig = DetectorConfig::default();
    let roi: Rect = Rect { x: 240, y: 343, w: 1800, h: 720 };
    let large: Blob = blob(1480, 690, 320, 30, 900);
    let window: Rect = recovery_window(&large, roi.w, roi.h, &cfg).unwrap();
    assert_eq!(window, Rect { x: 1476, y: 686, w: 324, h: 34 });
    let parts: Vec<Blob> = vec![blob(0, 0, 40, 20, 160), blob(224, 14, 100, 20, 400)];
    let recovered = recover_oversized_blob(&parts, &window, &cfg, roi.x, roi.y);
    let blobs: Vec<Blob> = vec![blob(0, 0, 100, 30, 400), blob(1700, 690, 100, 30, 400), large];
    let boxes = detect_monster_names(&blobs, &vec![vec![], vec![], recovered], &roi, &cfg);
    assert_eq!(boxes.len(), 4);
    for b in boxes {
        assert!(roi.x <= b.x && b.x + b.w <= roi.x + roi.w);
        assert!(roi.y <= b.y && b.y + b.h <= roi.y + roi.h);
    }
}

#[test]
fn boxes_know_their_middle_and_their_crop() {
    let b: TextBox = TextBox { x: -3, y: 10, w: 21, h: 8, area: 100 };
    assert_eq!(b.rect(), Rect { x: -3, y: 10, w: 21, h: 8 });
    assert_eq!(b.center(), (7, 14));
    assert!(!TextBox { x: 0, y: 0, w: 160, h: 8, area: 1 }.looks_merged(100));
    assert!(TextBox { x: 0, y: 0, w: 161, h: 8, area: 1 }.looks_merged(100));
    assert_eq!(crop_rect(&b, 100, 100), Some(Rect { x: 0, y: 10, w: 21, h: 8 }));
    assert_eq!(crop_rect(&b, 10, 15), Some(Rect { x: 0, y: 10, w: 10, h: 5 }));
    assert_eq!(crop_rect(&b, 10, 10), None);
}

#[test]
fn screenshots_become_images_with_blue_first() {
    let raw: Vec<u8> = vec![1, 2, 3, 255, 4, 5, 6, 255];
    let mat: BgrMat = rgba_bytes_to_bgr_mat(&raw, 2, 1);
    assert_eq!((mat.cols, mat.rows), (2, 1));
    assert_eq!(mat.data, vec![3, 2, 1, 6, 5, 4]);
    let img = mat_bgr_to_dynamic_image(&mat).unwrap();
    assert_eq!((img.width, img.height), (2, 1));
    assert_eq!(img.pixels, vec![1, 2, 3, 4, 5, 6]);
}

#[test]
fn short_images_are_refused() {
    let mat: BgrMat = BgrMat { cols: 2, rows: 2, data: vec![0; 11] };
    assert_eq!(mat_bgr_to_dynamic_image(&mat).err(), Some(ImageError::TooShort));
    let long: BgrMat = BgrMat { cols: 1, rows: 1, data: vec![7, 8, 9, 10] };
    assert_eq!(mat_bgr_to_dynamic_image(&long).unwrap().pixels, vec![9, 8, 7]);
}

#[test]
fn rectangles_are_painted_black() {
    let mat: BgrMat = BgrMat { cols: 3, rows: 2, data: (1..19).collect() };
    let painted: BgrMat = painted_over(&mat, &Rect { x: 1, y: 0, w: 1, h: 5 });
    assert_eq!(
        painted.data,
        vec![1, 2, 3, 0, 0, 0, 7, 8, 9, 10, 11, 12, 0, 0, 0, 16, 17, 18]
    );
    assert_eq!(mat.data[3], 4);
    let outside: BgrMat = painted_over(&mat, &Rect { x: -4, y: -4, w: 4, h: 9 });
    assert_eq!(outside.data, mat.data);
}

#[test]
fn the_chat_box_is_blanked_before_reading() {
    let cfg: TextOcrConfig = TextOcrConfig::default();
    assert_eq!(
        chat_rect(3264, 1864, &cfg),
        Rect {
            x: (3264f64 * 0.346) as i32,
            y: (1864f64 * 0.870) as i32,
            w: (3264f64 * (0.655 - 0.346)) as i32,
            h: (1864f64 * (0.989 - 0.870)) as i32,
        }
    );
    let (w, h): (i32, i32) = (40, 30);
    let frame: BgrMat = BgrMat { cols: w, rows: h, data: vec![10, 20, 30].repeat((w * h) as usize) };
    let chat: Rect = chat_rect(w, h, &cfg);
    let img = prepare_frame(&frame, &cfg).unwrap();
    for y in 0..h {
        for x in 0..w {
            let at: usize = ((y * w + x) * 3) as usize;
            let inside: bool =
                chat.x <= x && x < chat.x + chat.w && chat.y <= y && y < chat.y + chat.h;
            let expected: [u8; 3] = if inside { [0, 0, 0] } else { [30, 20, 10] };
            assert_eq!(img.pixels[at..at + 3], expected);
        }
    }
}

#[test]
fn the_map_name_is_the_most_confident_text_on_the_plaque() {
    let cfg: TextOcrConfig = TextOcrConfig::default();
    let blocks: Vec<RawTextBlock> = vec![
        block("炎魔", 0.99, 1000, 800, 80, 30),
        block("心之魔域", 0.8, 2500, 60, 200, 40),
        block("心之魔城", 0.9, 2500, 60, 200, 40),
        block("心之魔国", 0.9, 2500, 60, 200, 40),
        block("12:30", 0.95, 2500, 60, 200, 40),
        block("远方", 0.49, 2500, 60, 200, 40),
    ];
    assert_eq!(
        match_map_name(&blocks, 3000, 1716, &cfg),
        Some(("心之魔城".to_string(), score(0.9)))
    );
    assert_eq!(match_map_name(&blocks[..1], 3000, 1716, &cfg), None);
    assert_eq!(match_map_name(&[], 3000, 1716, &cfg), None);
    // The borders of the plaque belong to it.
    let edge: Vec<RawTextBlock> = vec![block("边", 0.9, 2280, 34, 0, 0)];
    assert!(match_map_name(&edge, 3000, 1716, &cfg).is_some());
    let beyond: Vec<RawTextBlock> = vec![block("边", 0.9, 2279, 34, 0, 0)];
    assert!(match_map_name(&beyond, 3000, 1716, &cfg).is_none());
}

#[test]
fn near_copies_of_a_monster_are_dropped() {
    let cfg: TextOcrConfig = TextOcrConfig::default();
    let wanted: Whitelist = names(&["炎魔", "地火兽骑将"]);
    let blocks: Vec<RawTextBlock> = vec![
        block("炎魔 Lv3", 0.8, 100, 100, 80, 30),
        block("炎魔", 0.9, 103, 101, 80, 30),
        block("炎魔", 0.7, 102, 100, 80, 30),
        block("炎魔", 0.6, 400, 100, 80, 30),
        block("地火兽奇将", 0.6, 100, 100, 80, 30),
        block("炎魔", 0.4, 900, 100, 80, 30),
        block("小猫", 0.9, 700, 100, 80, 30),
    ];
    assert!(areas_can_be_told(&blocks, &cfg));
    let found = match_monsters(&blocks, &wanted, &cfg);
    let seen: Vec<(&str, i32, i32, Score)> =
        found.iter().map(|m| (m.0.as_str(), m.1.x, m.1.area, m.2)).collect();
    assert_eq!(
        seen,
        vec![
            ("炎魔", 103, 2400, score(0.9)),
            ("炎魔", 400, 2400, score(0.6)),
            ("地火兽骑将", 100, 2400, score(0.6)),
        ]
    );
}

#[test]
fn a_reading_that_straddles_two_replaces_both_or_neither() {
    let cfg: TextOcrConfig = TextOcrConfig::default();
    let wanted: Whitelist = names(&["炎魔", "鹿"]);
    let places = |blocks: &[RawTextBlock]| -> Vec<(String, i32)> {
        match_monsters(blocks, &wanted, &cfg).iter().map(|m| (m.0.clone(), m.1.x)).collect()
    };
    let mut blocks: Vec<RawTextBlock> = vec![
        block("鹿", 0.6, 50, 0, 100, 30),
        block("炎魔", 0.7, 0, 0, 100, 30),
        block("鹿", 0.6, 500, 0, 100, 30),
        block("炎魔", 0.6, 100, 0, 100, 30),
        block("炎魔", 0.9, 50, 0, 100, 30),
    ];
    let deer: String = "鹿".to_string();
    let demon: String = "炎魔".to_string();
    assert_eq!(
        places(&blocks),
        vec![(deer.clone(), 50), (demon.clone(), 50), (deer.clone(), 500)]
    );
    blocks[4].confidence = score(0.65);
    assert_eq!(
        places(&blocks),
        vec![(deer.clone(), 50), (demon.clone(), 0), (deer, 500), (demon, 100)]
    );
}

#[test]
fn areas_beyond_the_range_are_told_apart() {
    let cfg: TextOcrConfig = TextOcrConfig::default();
    assert!(!areas_can_be_told(&[block("炎魔", 0.9, 0, 0, 65536, 65536)], &cfg));
    assert!(areas_can_be_told(&[block("炎魔", 0.1, 0, 0, 65536, 65536)], &cfg));
    assert!(areas_can_be_told(&[block("abc", 0.9, 0, 0, 65536, 65536)], &cfg));
}

#[test]
fn items_are_read_with_their_text() {
    let cfg: TextOcrConfig = TextOcrConfig::default();
    let wanted: Whitelist = names(&["强效太阳神水", "治疗药水"]);
    let blocks: Vec<RawTextBlock> = vec![
        block("强效太阳神水治疗药水x2", 0.8, 1, 2, 3, 4),
        block("治疗药水", 0.3, 1, 2, 3, 4),
    ];
    let found = match_items(&blocks, &wanted, &cfg);
    assert_eq!(
        found,
        vec![
            ("强效太阳神水".to_string(), "强效太阳神水治疗药水x2".to_string(), score(0.8)),
            ("治疗药水".to_string(), "强效太阳神水治疗药水x2".to_string(), score(0.8)),
        ]
    );
}

#[test]
fn the_item_area_is_read_whatever_the_confidence() {
    let cfg: ItemOcrConfig = ItemOcrConfig::default();
    let wanted: Whitelist = names(&["治疗药水", "金币"]);
    let blocks: Vec<RawTextBlock> =
        vec![block("治疗药水", 0.1, 0, 0, 1, 1), block("金市", 0.9, 0, 0, 1, 1)];
    let found = item_ocr::detect_items(&blocks, &cfg, &wanted);
    assert_eq!(found.len(), 2);
    assert_eq!(found[0], ("治疗药水".to_string(), "治疗药水".to_string(), score(0.1)));
    assert_eq!(found[1], ("金币".to_string(), "金市".to_string(), score(0.9)));
    assert_eq!(
        item_ocr::compute_roi_rect(3000, 1716, &cfg),
        Rect {
            x: 240,
            y: 343,
            w: (3000f64 * (0.68 - 0.08)) as i32,
            h: (1716f64 * (0.70 - 0.20)) as i32,
        }
    );
}

#[test]
fn plaque_and_position_areas_follow_the_frame() {
    assert_eq!(
        map_matcher::compute_roi_rect(3000, 1716, &MapReaderConfig::default()),
        Rect {
            x: 2280,
            y: 34,
            w: (3000f64 * (0.99 - 0.76)) as i32,
            h: (1716f64 * (0.085 - 0.02)) as i32,
        }
    );
    assert_eq!(
        position_reader::compute_roi_rect(3000, 1716, &PositionReaderConfig::default()),
        Rect {
            x: 2490,
            y: 429,
            w: (3000f64 * (0.99 - 0.83)) as i32,
            h: (1716f64 * (0.30 - 0.25)) as i32,
        }
    );
}

#[test]
fn characters_come_from_left_to_right() {
    let cfg: PositionReaderConfig = PositionReaderConfig::default();
    let blobs: Vec<Blob> = vec![
        blob(30, 1, 10, 20, 50),
        blob(10, 2, 10, 20, 50),
        blob(20, 3, 10, 3, 50),
        blob(10, 4, 10, 20, 50),
        blob(5, 5, 1, 20, 50),
        blob(0, 6, 2, 4, 4),
        blob(1, 7, 10, 20, 3),
    ];
    let boxes: Vec<Rect> = detect_char_boxes(&blobs, &cfg);
    assert_eq!(
        boxes,
        vec![
            Rect { x: 0, y: 6, w: 2, h: 4 },
            Rect { x: 10, y: 2, w: 10, h: 20 },
            Rect { x: 10, y: 4, w: 10, h: 20 },
            Rect { x: 30, y: 1, w: 10, h: 20 },
        ]
    );
    assert_eq!(char_crop(&boxes[0], 480, 85), Some(Rect { x: 0, y: 4, w: 6, h: 8 }));
    assert_eq!(char_crop(&Rect { x: 500, y: 0, w: 2, h: 2 }, 480, 85), None);
}

#[test]
fn characters_are_matched_above_their_confidence() {
    let templates: Vec<DigitTemplate> = vec![
        DigitTemplate { label: "1".to_string(), cols: 5, rows: 10 },
        DigitTemplate { label: "7".to_string(), cols: 8, rows: 10 },
    ];
    let limit: Score = Score { bits: DIGIT_CONFIDENCE_BITS };
    assert_eq!(limit, score(0.7));
    let scores: [Score; 2] = [score(0.7), score(0.9)];
    assert_eq!(match_char(9, 12, &templates, &scores, limit), Some(("7".to_string(), score(0.9))));
    assert_eq!(match_char(7, 12, &templates, &scores, limit), Some(("1".to_string(), score(0.7))));
    assert_eq!(match_char(4, 12, &templates, &scores, limit), None);
    assert_eq!(match_char(7, 12, &templates, &[score(0.69), score(0.9)], limit), None);
}

fn labels(parts: &[&str]) -> Vec<Option<(String, Score)>> {
    parts
        .iter()
        .map(|p| if p.is_empty() { None } else { Some((p.to_string(), score(0.98))) })
        .collect()
}

#[test]
fn positions_are_spelled_by_their_characters() {
    assert_eq!(read_position(&labels(&["1", "2", ",", "", "3", "4"])), Some((12, 34)));
    assert_eq!(read_position(&labels(&["1", "2", "3"])), None);
    assert_eq!(read_position(&labels(&["1", ",", "2", ",", "3"])), None);
    assert_eq!(read_position(&labels(&[",", "2"])), None);
    assert_eq!(read_position(&[]), None);
    assert_eq!(parse_position(" 120 , -45 "), Some((120, -45)));
    assert_eq!(parse_position("120,99999999999"), None);
    assert_eq!(parse_position("+1,+2"), Some((1, 2)));
    for (x, y) in [(0, 0), (-17, 2048), (i32::MAX, i32::MIN)] {
        assert_eq!(parse_position(&format!("{},{}", x, y)), Some((x, y)));
    }
}
