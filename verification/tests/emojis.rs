use menu::emojis::{self, Emojis};
use menu::strmap::StrMap;

fn table(pairs: &[(&str, &str)]) -> StrMap<String> {
    let mut m = StrMap::new();
    for (k, v) in pairs {
        m.insert(k.to_string(), v.to_string());
    }
    m
}

fn counts(pairs: &[(&str, u16)]) -> StrMap<u16> {
    let mut m = StrMap::new();
    for (k, v) in pairs {
        m.insert(k.to_string(), *v);
    }
    m
}

fn sample() -> Emojis {
    Emojis {
        current: table(&[("😀", "grin"), ("🐱", "cat"), ("🔥", "fire"), ("🎉", "party")]),
        backup: table(&[("😀", "grinning face"), ("🐱", "cat face")]),
        renames: table(&[("😀", "grin")]),
        most_used: counts(&[("🔥", 3), ("😀", 1)]),
    }
}

#[test]
fn dmenu_lists_most_used_first_then_by_description() {
    let e = sample();
    assert_eq!(
        e.dmenu(),
        vec![
            "🔥: fire".to_string(),
            "😀: grin".to_string(),
            "🐱: cat".to_string(),
            "🎉: party".to_string(),
        ]
    );
    assert_eq!(emojis::dmenu(&e), e.dmenu());
}

#[test]
fn record_choice_counts_the_emoji_of_the_line() {
    let mut e = sample();
    let picked = e.record_choice("😀: grin");
    assert_eq!(picked, "😀");
    assert_eq!(e.uses("😀"), 2);
    let picked = e.record_choice("🎉: party");
    assert_eq!(picked, "🎉");
    assert_eq!(e.uses("🎉"), 1);
    assert_eq!(e.uses("🔥"), 3);
}

#[test]
fn uses_of_an_emoji_never_picked_is_zero() {
    assert_eq!(sample().uses("🐱"), 0);
}

#[test]
fn refresh_overlays_renames_on_backup() {
    let mut e = sample();
    e.refresh();
    assert_eq!(e.current.len(), 2);
    assert_eq!(e.current.get("😀").unwrap(), "grin");
    assert_eq!(e.current.get("🐱").unwrap(), "cat face");
    assert!(e.current.get("🔥").is_none());
    emojis::refresh(&mut e);
    assert_eq!(e.current.len(), 2);
    assert_eq!(e.current.get("😀").unwrap(), "grin");
}

#[test]
fn update_from_txt_reads_key_value_lines() {
    let mut e = sample();
    let lines = vec![
        "🎉:  party popper ".to_string(),
        "no colon here".to_string(),
        "😀: smiley".to_string(),
        "a:b:c".to_string(),
    ];
    e.update_from_txt(&lines);
    assert_eq!(e.backup.get("🎉").unwrap(), "party popper");
    assert_eq!(e.backup.get("😀").unwrap(), "smiley");
    assert_eq!(e.backup.get("a").unwrap(), "b:c");
    assert!(!e.backup.contains_key("no colon here"));
    assert_eq!(e.current.get("😀").unwrap(), "grin");
    assert_eq!(e.current.get("🎉").unwrap(), "party popper");
    assert_eq!(e.current.len(), 4);
}

#[test]
fn update_splits_the_source_into_lines() {
    let mut e = sample();
    emojis::update(&mut e, "🚀: rocket\n🌙 : moon\n");
    assert_eq!(e.backup.get("🚀").unwrap(), "rocket");
    assert_eq!(e.backup.get("🌙 ").unwrap(), "moon");
    assert_eq!(e.current.get("🚀").unwrap(), "rocket");
}

#[test]
fn most_used_reports_the_ten_most_picked() {
    let mut mu = StrMap::new();
    for i in 0..12u16 {
        mu.insert(format!("e{}", i), i);
    }
    let e = Emojis { current: StrMap::new(), backup: StrMap::new(), renames: StrMap::new(), most_used: mu };
    let top = e.most_used();
    assert_eq!(top.len(), 10);
    let expected: Vec<(String, u16)> = (2..12u16).rev().map(|i| (format!("e{}", i), i)).collect();
    assert_eq!(top, expected);
    let lines = emojis::most_used(&e);
    assert_eq!(lines[0], "e11: 11");
    assert_eq!(lines[9], "e2: 2");
}

#[test]
fn most_used_with_few_picks_lists_them_all() {
    let lines = emojis::most_used(&sample());
    assert_eq!(lines, vec!["🔥: 3".to_string(), "😀: 1".to_string()]);
}

#[test]
fn emoji_path_is_under_local() {
    assert_eq!(emojis::get_path("/home/u/.config"), "/home/u/.config/local/emoji.json");
    assert_eq!(emojis::get_path("/home/u/.config/"), "/home/u/.config/local/emoji.json");
}
