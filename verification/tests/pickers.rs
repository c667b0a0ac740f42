use menu::error::Error;
use menu::{files, menu_music, music, notes, pass, run};

fn strings(v: &[&str]) -> Vec<String> {
    v.iter().map(|s| s.to_string()).collect()
}

#[test]
fn song_list_paths() {
    assert_eq!(music::get_path("/home/u/.config"), "/home/u/.config/mpd/songs.txt");
    assert_eq!(menu_music::get_path("/home/u/.config"), "/home/u/.config/mpd/songs.txt");
    assert_eq!(menu_music::get_path("/c/"), "/c//mpd/songs.txt");
    assert_eq!(music::get_path("/c/"), "/c/mpd/songs.txt");
}

#[test]
fn songs_are_decoded_and_split_into_lines() {
    let text = music::get_songs("a.mp3\nb é.flac\n".as_bytes().to_vec());
    assert_eq!(music::song_lines(&text), strings(&["a.mp3", "b é.flac", ""]));
    let ok = menu_music::get_songs(b"x".to_vec()).unwrap();
    assert_eq!(ok, "x");
    assert!(matches!(menu_music::get_songs(vec![0xfe]), Err(Error::FromUtf8(_))));
}

#[test]
fn notes_dir_is_under_home() {
    assert_eq!(notes::get_notes_dir("/home/u"), "/home/u/Notes");
}

#[test]
fn read_path_keeps_visible_names() {
    let paths = vec![
        Some("/home/u/Notes/1a2b3c4d groceries.md".to_string()),
        Some("/home/u/Notes/.hidden".to_string()),
        None,
        Some("/home/u/Notes/todo.md".to_string()),
    ];
    assert_eq!(notes::read_path(&paths), strings(&["1a2b3c4d groceries.md", "todo.md"]));
    assert_eq!(run::read_path(&paths), strings(&["1a2b3c4d groceries.md", "todo.md"]));
}

#[test]
fn notes_are_sorted_by_title_stably() {
    let ns = strings(&["ffff0000 zebra.md", "aaaa0000 apple.md", "plain", "bbbb0000 plain", "c d e"]);
    let sorted = notes::sort_notes(ns);
    assert_eq!(
        sorted,
        strings(&["aaaa0000 apple.md", "c d e", "plain", "bbbb0000 plain", "ffff0000 zebra.md"])
    );
}

#[test]
fn get_id_is_eight_hex_digits() {
    let id = notes::get_id();
    assert_eq!(id.len(), 8);
    assert!(id.chars().all(|c| c.is_ascii_hexdigit() && !c.is_ascii_uppercase()));
}

#[test]
fn note_path_reopens_or_creates() {
    let ns = strings(&["1a2b3c4d groceries.md"]);
    assert_eq!(
        notes::note_path("/n", &ns, "1a2b3c4d groceries.md", "deadbeef"),
        "/n/1a2b3c4d groceries.md"
    );
    assert_eq!(notes::note_path("/n", &ns, "ideas", "deadbeef"), "/n/deadbeef ideas.md");
    assert_eq!(notes::pick_note("/n", &ns, "1a2b3c4d groceries.md"), "/n/1a2b3c4d groceries.md");
    let fresh = notes::pick_note("/n", &ns, "ideas");
    assert!(fresh.starts_with("/n/"));
    assert!(fresh.ends_with(" ideas.md"));
    assert_eq!(fresh.len(), "/n/".len() + 8 + " ideas.md".len());
    assert!(notes::has_note(&ns, "1a2b3c4d groceries.md"));
    assert!(!notes::has_note(&ns, "groceries"));
}

#[test]
fn pass_dir_is_under_home() {
    assert_eq!(pass::pass_dir("/home/u"), "/home/u/.password-store");
}

#[test]
fn pass_lists_every_file_of_the_store() {
    let files = strings(&[
        "github.gpg",
        "notes.txt",
        "email/gmail.gpg",
        ".gpg-id",
        "bank.acct.gpg",
        "dir/.gpg",
        "gpg",
    ]);
    assert_eq!(
        pass::get_names(&files),
        strings(&["github", "notes.txt", "email/gmail", ".gpg-id", "bank.acct", "dir/.gpg", "gpg"])
    );
}

#[test]
fn note_id_is_the_start_of_the_uuid() {
    assert_eq!(notes::note_id("3f2a9c1e-7b4d-4e8a-9f01-23456789abcd"), "3f2a9c1e");
}

#[test]
fn password_text_drops_trailing_white_space() {
    assert_eq!(pass::password_text(b"  s3cr3t \n\n".to_vec()), "  s3cr3t");
    assert_eq!(pass::password_text(b"line1\nline2\n".to_vec()), "line1\nline2");
}

#[test]
fn search_dirs_split_on_colons() {
    assert_eq!(run::search_dirs("/usr/bin:/bin::/opt/x"), strings(&["/usr/bin", "/bin", "", "/opt/x"]));
}

#[test]
fn run_lists_each_program_once_in_order() {
    let bins = strings(&["ls", "cat", "ls", "awk", "cat", "zsh"]);
    assert_eq!(run::sorted_unique(bins), strings(&["awk", "cat", "ls", "zsh"]));
    assert_eq!(run::sorted_unique(Vec::new()), Vec::<String>::new());
}

#[test]
fn files_offers_parent_and_visible_names_sorted() {
    let names = strings(&["notes.txt", ".bashrc", "Documents", "a b"]);
    assert_eq!(files::get_files(&names), strings(&["..", "Documents", "a b", "notes.txt"]));
    assert_eq!(files::get_files(&Vec::new()), strings(&[".."]));
}
