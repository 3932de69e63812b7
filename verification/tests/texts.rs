use game_bot::text;
use game_bot::whitelist::{find_names, Whitelist};

fn list(names: &[&str]) -> Vec<String> {
    names.iter().map(|n| n.to_string()).collect()
}

fn found(line: &str, names: &[&str], tolerance: usize, short_exact: bool) -> Vec<String> {
    find_names(line, &Whitelist::from_names(&list(names)), tolerance, short_exact)
}

#[test]
fn characters_come_back_as_text() {
    let chars: Vec<char> = text::to_chars("危险 12,3");
    assert_eq!(chars, vec!['危', '险', ' ', '1', '2', ',', '3']);
    assert_eq!(text::from_chars(&chars), "危险 12,3");
    assert_eq!(text::from_chars(&[]), "");
    assert!(text::same_text("炎魔", "炎魔"));
    assert!(!text::same_text("炎魔", "炎魔王"));
    assert!(!text::same_text("炎魔", "炎鹿"));
}

#[test]
fn only_chinese_characters_are_kept() {
    assert_eq!(text::filter_chinese_only("Lv.30 地火兽骑将(100/100)!"), "地火兽骑将");
    assert_eq!(text::filter_chinese_only("abc 123"), "");
    assert!(text::is_chinese_char('\u{4E00}'));
    assert!(text::is_chinese_char('\u{9FFF}'));
    assert!(text::is_chinese_char('\u{3400}'));
    assert!(text::is_chinese_char('\u{4DBF}'));
    assert!(text::is_chinese_char('\u{F900}'));
    assert!(text::is_chinese_char('\u{FAFF}'));
    assert!(!text::is_chinese_char('\u{A000}'));
    assert!(!text::is_chinese_char('，'));
}

#[test]
fn white_space_is_cut_as_the_standard_library_cuts_it() {
    for code in 0..0x110000u32 {
        if let Some(c) = char::from_u32(code) {
            let line: String = format!("{}x{}", c, c);
            assert_eq!(text::trim(&line), line.trim());
        }
    }
    assert_eq!(text::trim("  a b \t\n"), "a b");
    assert_eq!(text::trim(" \u{3000} "), "");
    assert_eq!(text::trim(&text::trim("  炎魔 ")), "炎魔");
}

#[test]
fn numbers_are_read_as_the_standard_library_reads_them() {
    for line in [
        "0", "7", "-7", "+7", "007", "2147483647", "2147483648", "-2147483648", "-2147483649",
        "99999999999999999999", "", "-", "+", "--1", "1 2", "1a", "１", "12,3", "-0",
    ] {
        let chars: Vec<char> = text::to_chars(line);
        assert_eq!(text::parse_i32(&chars), line.parse::<i32>().ok(), "{}", line);
    }
    for n in [0, 1, -1, 10, 99, 100, i32::MAX, i32::MIN, 123456789] {
        assert_eq!(text::parse_i32(&text::to_chars(&n.to_string())), Some(n));
    }
}

#[test]
fn substrings_are_found() {
    let hay: Vec<char> = text::to_chars("my 24luling window");
    assert!(text::contains(&hay, &text::to_chars("24luling")));
    assert!(text::contains(&hay, &[]));
    assert!(text::contains(&hay, &text::to_chars("window")));
    assert!(!text::contains(&hay, &text::to_chars("25luling")));
    assert!(!text::contains(&[], &text::to_chars("a")));
}

#[test]
fn whitelists_hold_trimmed_names_once() {
    let wanted: Whitelist = Whitelist::from_names(&list(&[" 炎魔", "鹿", "炎魔 ", "鹿", "地火兽骑将"]));
    assert_eq!(wanted.len(), 3);
    assert!(wanted.contains("炎魔"));
    assert!(wanted.contains("鹿"));
    assert!(!wanted.contains(" 炎魔"));
    assert_eq!(Whitelist::empty().len(), 0);
}

#[test]
fn glued_names_are_all_found() {
    let names: [&str; 3] = ["强效太阳神水", "治疗药水", "炎魔"];
    assert_eq!(found("强效太阳神水治疗药水", &names, 1, true), list(&["强效太阳神水", "治疗药水"]));
    assert_eq!(found("啊强效太阳神水啊治疗药水啊", &names, 1, true), list(&["强效太阳神水", "治疗药水"]));
}

#[test]
fn long_names_may_be_off_by_the_tolerance() {
    assert_eq!(found("地火兽奇将", &["地火兽骑将"], 1, true), list(&["地火兽骑将"]));
    assert_eq!(found("地火兽奇匠", &["地火兽骑将"], 1, true), list(&[]));
    assert_eq!(found("地火兽奇匠", &["地火兽骑将"], 2, true), list(&["地火兽骑将"]));
    // The text is shorter than the name: the whole of it is compared.
    assert_eq!(found("地火兽将", &["地火兽骑将"], 1, true), list(&["地火兽骑将"]));
    assert_eq!(found("地火将", &["地火兽骑将"], 1, true), list(&[]));
    assert_eq!(found("", &["炎魔王"], 3, true), list(&["炎魔王"]));
}

#[test]
fn short_names_must_be_exact() {
    assert_eq!(found("炎鹿", &["炎魔"], 1, true), list(&[]));
    assert_eq!(found("大炎魔王", &["炎魔"], 1, true), list(&["炎魔"]));
    assert_eq!(found("鹿", &["鹿"], 1, true), list(&["鹿"]));
    assert_eq!(found("马", &["鹿"], 1, true), list(&[]));
    // Without that rule one wrong character of two is tolerated.
    assert_eq!(found("炎鹿", &["炎魔"], 1, false), list(&["炎魔"]));
}

#[test]
fn empty_names_are_never_found() {
    assert_eq!(found("炎魔", &["", "  "], 5, false), list(&[]));
}

#[test]
fn distances_agree_with_the_distance_crate() {
    let words: [&str; 7] = ["", "炎", "炎魔", "魔炎", "地火兽", "火兽骑", "地火兽骑将"];
    for a in words {
        for b in words {
            if b.is_empty() || a.chars().count() >= b.chars().count() {
                continue;
            }
            let distance: usize = strsim::levenshtein(a, b);
            assert_eq!(found(a, &[b], distance, false), list(&[b]));
            if distance > 0 {
                assert_eq!(found(a, &[b], distance - 1, false), list(&[]));
            }
        }
    }
}
