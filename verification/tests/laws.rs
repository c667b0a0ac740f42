use menu::menu_input;
use menu::notes::{note_path, sort_notes};
use menu::run::sorted_unique;
use menu::strmap::StrMap;
use menu::text::{before_first_char, split_char};

fn strings(v: &[&str]) -> Vec<String> {
    v.iter().map(|s| s.to_string()).collect()
}

#[test]
fn menu_lines_read_back_as_items() {
    let items = strings(&["Run", "", "Power off"]);
    let text = menu_input(&items);
    assert_eq!(split_char(&text, '\n'), strings(&["Run", "", "Power off", ""]));
}

#[test]
fn first_piece_of_split_is_before_first_separator() {
    for s in ["😀: grin: wide", "no colon", ":lead", ""] {
        assert_eq!(split_char(s, ':')[0], before_first_char(s, ':'));
    }
}

#[test]
fn new_note_is_listed_by_its_title() {
    let made = note_path("/n", &Vec::new(), "beta", "0123abcd");
    let name = made.strip_prefix("/n/").unwrap().to_string();
    let sorted = sort_notes(vec!["ffffffff gamma.md".to_string(), name.clone(), "alpha.md".to_string()]);
    assert_eq!(sorted, vec!["alpha.md".to_string(), name, "ffffffff gamma.md".to_string()]);
}

#[test]
fn run_listing_depends_only_on_names_found() {
    let a = sorted_unique(strings(&["vim", "ls", "cat"]));
    let b = sorted_unique(strings(&["cat", "cat", "vim", "ls", "vim"]));
    assert_eq!(a, b);
}

#[test]
fn sorted_keys_do_not_depend_on_insertion_order() {
    let mut a: StrMap<u16> = StrMap::new();
    let mut b: StrMap<u16> = StrMap::new();
    for k in ["b", "a", "c"] {
        a.insert(k.to_string(), 1);
    }
    for k in ["c", "b", "a", "b"] {
        b.insert(k.to_string(), 2);
    }
    assert_eq!(a.sorted_keys(), b.sorted_keys());
    assert_eq!(a.sorted_keys(), strings(&["a", "b", "c"]));
}
