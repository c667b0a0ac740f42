use menu::error::Error;
use menu::{decode_text, get_conf_dir, menu_answer, menu_input};

#[test]
fn menu_input_puts_each_item_on_a_line() {
    let items = vec!["Run".to_string(), "Power".to_string()];
    assert_eq!(menu_input(&items), "Run\nPower\n");
}

#[test]
fn menu_input_of_nothing_is_empty() {
    let items: Vec<String> = Vec::new();
    assert_eq!(menu_input(&items), "");
}

#[test]
fn menu_answer_trims_the_line_picked() {
    let out = b"  Power\n".to_vec();
    assert_eq!(menu_answer(out).unwrap(), "Power");
}

#[test]
fn menu_answer_gives_back_a_picked_line() {
    let line = "Play next episode (3)";
    let mut out = line.as_bytes().to_vec();
    out.push(b'\n');
    assert_eq!(menu_answer(out).unwrap(), line);
}

#[test]
fn menu_answer_of_white_space_is_empty_result() {
    let r = menu_answer(b" \n\t\n".to_vec());
    assert!(matches!(r, Err(Error::EmptyResult)));
}

#[test]
fn menu_answer_of_nothing_is_empty_result() {
    let r = menu_answer(Vec::new());
    assert!(matches!(r, Err(Error::EmptyResult)));
}

#[test]
fn menu_answer_of_bad_bytes_is_from_utf8() {
    let r = menu_answer(vec![0x66, 0xff, 0x0a]);
    assert!(matches!(r, Err(Error::FromUtf8(_))));
}

#[test]
fn menu_answer_keeps_inner_spaces() {
    let r = menu_answer("😀: grinning face\n".as_bytes().to_vec());
    assert_eq!(r.unwrap(), "😀: grinning face");
}

#[test]
fn decode_text_decodes_utf8() {
    let s = decode_text("héllo".as_bytes().to_vec()).unwrap();
    assert_eq!(s, "héllo");
    assert!(matches!(decode_text(vec![0xc3]), Err(Error::FromUtf8(_))));
}

#[test]
fn conf_dir_prefers_xdg() {
    let r = get_conf_dir(Some("/etc/xdg".to_string()), Some("/home/u".to_string()));
    assert_eq!(r, "/etc/xdg");
}

#[test]
fn conf_dir_falls_back_to_home() {
    let r = get_conf_dir(None, Some("/home/u".to_string()));
    assert_eq!(r, "/home/u/.config");
}
