use menu::paths::{extension_of, file_name_of, join_path, visible_names_of};
use menu::sort::sort_by_rank;
use menu::strmap::StrMap;
use menu::text::{
    before_first_char, decimal_string, find_char, lex_le_exec, owned, rfind_char,
    split_char, split_once, starts_with, starts_with_char, str_eq, trim_end_of, trim_of,
    trim_start_of, white_space,
};

fn strings(v: &[&str]) -> Vec<String> {
    v.iter().map(|s| s.to_string()).collect()
}

#[test]
fn text_searches_count_characters() {
    assert_eq!(find_char("a:b:c", ':'), Some(1));
    assert_eq!(rfind_char("a:b:c", ':'), Some(3));
    assert_eq!(find_char("é:x", ':'), Some(1));
    assert_eq!(find_char("abc", ':'), None);
    assert_eq!(rfind_char("", '/'), None);
}

#[test]
fn text_splits_like_std() {
    assert_eq!(split_char("a\nb\n", '\n'), strings(&["a", "b", ""]));
    assert_eq!(split_char("", '\n'), strings(&[""]));
    assert_eq!(split_once("k: v: w", ':'), Some(("k".to_string(), " v: w".to_string())));
    assert_eq!(split_once("kv", ':'), None);
    assert_eq!(before_first_char("😀: grin", ':'), "😀");
    assert_eq!(before_first_char("none", ':'), "none");
}

#[test]
fn text_trims_unicode_white_space() {
    assert_eq!(trim_of("\u{3000} x y \t\n"), "x y");
    assert_eq!(trim_start_of("  x "), "x ");
    assert_eq!(trim_end_of("  x \u{a0}"), "  x");
    assert!(white_space('\u{2028}'));
    assert!(!white_space('x'));
}

#[test]
fn text_compares_and_joins() {
    assert!(str_eq("abc", "abc"));
    assert!(!str_eq("abc", "abd"));
    assert!(starts_with("Play next", "Play"));
    assert!(!starts_with("Pl", "Play"));
    assert!(starts_with_char(".x", '.'));
    assert!(!starts_with_char("", '.'));
    assert!(lex_le_exec("abc", "abd"));
    assert!(lex_le_exec("ab", "abc"));
    assert!(!lex_le_exec("b", "abc"));
    assert_eq!(owned("x"), "x");
}

#[test]
fn decimal_string_writes_numbers() {
    assert_eq!(decimal_string(0), "0");
    assert_eq!(decimal_string(255), "255");
    assert_eq!(decimal_string(65535), "65535");
}

#[test]
fn paths_follow_std_path() {
    assert_eq!(file_name_of("/a/b.tar.gz"), Some("b.tar.gz".to_string()));
    assert_eq!(file_name_of("/a/b/"), Some("b".to_string()));
    assert_eq!(file_name_of("/a/b/."), Some("b".to_string()));
    assert_eq!(file_name_of("/a/.."), None);
    assert_eq!(file_name_of("/"), None);
    assert_eq!(file_name_of(""), None);
    assert_eq!(extension_of("/a/b.tar.gz"), Some("gz".to_string()));
    assert_eq!(extension_of("/a/.bashrc"), None);
    assert_eq!(extension_of("/a/b."), Some("".to_string()));
    assert_eq!(join_path("", "x"), "x");
    assert_eq!(join_path("/", "x"), "/x");
    assert_eq!(join_path("/a", "x"), "/a/x");
}

#[test]
fn visible_names_skip_hidden_and_nameless() {
    let ps = vec![Some("/d/..".to_string()), Some("/d/x".to_string()), Some("/d/.y".to_string()), None];
    assert_eq!(visible_names_of(&ps), strings(&["x"]));
}

#[test]
fn sort_by_rank_orders_strings() {
    let v = strings(&["b", "a", "c", "a"]);
    assert_eq!(sort_by_rank(v), strings(&["a", "a", "b", "c"]));
}

#[test]
fn strmap_keeps_the_last_value() {
    let mut m: StrMap<String> = StrMap::new();
    m.insert("k".to_string(), "1".to_string());
    m.insert("j".to_string(), "2".to_string());
    m.insert("k".to_string(), "3".to_string());
    assert_eq!(m.len(), 2);
    assert_eq!(m.get("k").unwrap(), "3");
    assert!(m.contains_key("j"));
    assert!(!m.contains_key("z"));
    assert_eq!(m.sorted_keys(), strings(&["j", "k"]));
    let copy = m.duplicate();
    assert_eq!(copy.get("j").unwrap(), "2");
    assert_eq!(copy.entries().len(), 2);
}
