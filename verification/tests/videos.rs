use menu::menu_videos;
use menu::playlist::{
    choose_playlist, episode_regex, file_part, mode, pick_episode, play_pl, warn_invalid, warning,
    Mode, NextStep, Playlist,
};
use menu::strmap::StrMap;
use menu::videos;

fn pl(path: &str, name: &str, ep: u8) -> Playlist {
    Playlist { path: path.to_string(), name: name.to_string(), ep }
}

fn watched() -> StrMap<Playlist> {
    let mut m = StrMap::new();
    m.insert("Show".to_string(), pl("/home/u/Videos/Show", "Show", 2));
    m.insert("Anime".to_string(), pl("/home/u/Videos/Anime", "Anime", 0));
    m.insert("Film".to_string(), pl("/home/u/Videos/Film", "Film", 1));
    m
}

fn strings(v: &[&str]) -> Vec<String> {
    v.iter().map(|s| s.to_string()).collect()
}

#[test]
fn next_ep_moves_on() {
    let mut p = pl("/v/Show", "Show", 4);
    p.next_ep();
    assert_eq!(p.ep, 5);
    assert_eq!(p.name, "Show");
}

#[test]
fn mode_reads_the_arguments() {
    assert!(matches!(mode(&strings(&["videos"])), Mode::Menu));
    assert!(matches!(mode(&strings(&["videos", "refresh"])), Mode::Refresh));
    match mode(&strings(&["videos", "bogus"])) {
        Mode::Unknown(o) => assert_eq!(o, "bogus"),
        _ => panic!("expected an unknown option"),
    }
    assert!(matches!(mode(&strings(&["videos", "a", "b"])), Mode::TooMany));
    assert!(matches!(mode(&Vec::new()), Mode::TooMany));
}

#[test]
fn menu_offers_titles_in_order() {
    let w = watched();
    assert_eq!(menu_videos::menu(&w), strings(&["Anime", "Film", "Show"]));
    assert_eq!(videos::menu(&w), strings(&["Anime", "Film", "Show"]));
}

#[test]
fn if_next_moves_on_at_once_for_a_new_playlist() {
    let p = pl("/v/A", "A", 0);
    assert!(matches!(menu_videos::if_next(&p, None), NextStep::Decided(true)));
    assert!(matches!(videos::if_next(&p, None), NextStep::Decided(true)));
}

#[test]
fn if_next_offers_play_then_continue() {
    let p = pl("/v/A", "A", 7);
    match menu_videos::if_next(&p, None) {
        NextStep::Ask(lines) => assert_eq!(
            lines,
            strings(&["Play next episode (8)", "Continue previous episode (7)"])
        ),
        _ => panic!("expected a question"),
    }
}

#[test]
fn if_next_reads_the_start_of_the_answer() {
    let p = pl("/v/A", "A", 7);
    assert!(matches!(menu_videos::if_next(&p, Some("Play next episode (8)")), NextStep::Decided(true)));
    assert!(matches!(menu_videos::if_next(&p, Some("Playground")), NextStep::Decided(true)));
    assert!(matches!(
        menu_videos::if_next(&p, Some("Continue previous episode (7)")),
        NextStep::Decided(false)
    ));
    assert!(matches!(menu_videos::if_next(&p, Some("Stop")), NextStep::Invalid));
}

#[test]
fn old_if_next_offers_sorted_lines() {
    let p = pl("/v/A", "A", 9);
    match videos::if_next(&p, None) {
        NextStep::Ask(lines) => assert_eq!(
            lines,
            strings(&["Continue previous episode (9)", "Play next episode (10)"])
        ),
        _ => panic!("expected a question"),
    }
}

#[test]
fn old_if_next_wants_an_offered_line() {
    let p = pl("/v/A", "A", 9);
    assert!(matches!(videos::if_next(&p, Some("Play next episode (10)")), NextStep::Decided(true)));
    assert!(matches!(
        videos::if_next(&p, Some("Continue previous episode (9)")),
        NextStep::Decided(false)
    ));
    assert!(matches!(videos::if_next(&p, Some("Playground")), NextStep::Invalid));
}

#[test]
fn pretty_takes_the_last_component() {
    assert_eq!(menu_videos::pretty("/home/u/Videos/My.Show"), "My.Show");
    assert_eq!(menu_videos::pretty("/home/u/Videos/Show/"), "Show");
    assert_eq!(menu_videos::pretty("/"), "/");
    assert_eq!(videos::pretty("/h/Videos/Show.S01"), "Show.S01");
    assert_eq!(videos::pretty("/home/u/Videos/.hidden"), ".hidden");
}

#[test]
fn path2string_decodes_or_gives_empty() {
    assert_eq!(menu_videos::path2string(b"/v/S\xc3\xa9rie".to_vec()), "/v/Série");
    assert_eq!(menu_videos::path2string(vec![b'/', 0xff]), "");
    assert_eq!(videos::path2string(b"/v/Show".to_vec()), "/v/Show");
}

#[test]
fn list_dirs_keeps_shown_directories() {
    let entries = vec![
        ("/v/Show".to_string(), true),
        ("/v/.cache".to_string(), true),
        ("/v/watched.json".to_string(), false),
        ("/v/Anime".to_string(), true),
    ];
    assert_eq!(menu_videos::list_dirs(&entries), strings(&["/v/Show", "/v/Anime"]));
    assert_eq!(videos::list_dirs(&entries), strings(&["/v/Show", "/v/Anime"]));
    assert_eq!(videos::skipped_files(&entries), strings(&["/v/watched.json"]));
}

#[test]
fn list_videos_keeps_videos_sorted() {
    let files = strings(&["/v/S/02.mkv", "/v/S/notes.txt", "/v/S/01.mp4", "/v/S/03.webm", "/v/S/cover"]);
    let expected = strings(&["/v/S/01.mp4", "/v/S/02.mkv", "/v/S/03.webm"]);
    assert_eq!(menu_videos::list_videos(&files), expected);
    assert_eq!(videos::list_videos(&files), expected);
}

#[test]
fn array_has_finds_members() {
    let exts = ["mp4", "mkv", "webm"];
    assert!(videos::array_has(&exts, "mkv"));
    assert!(!videos::array_has(&exts, "avi"));
    assert!(!videos::array_has(&[], "mkv"));
    assert!(videos::is_video_file("/v/a.webm"));
    assert!(!videos::is_video_file("/v/.mkv"));
}

#[test]
fn refresh_keeps_the_episode_reached() {
    let old = watched();
    let dirs = strings(&["/home/u/Videos/Show", "/home/u/Videos/New"]);
    let new = menu_videos::refresh(&old, &dirs);
    assert_eq!(new.len(), 2);
    let s = new.get("Show").unwrap();
    assert_eq!((s.path.as_str(), s.name.as_str(), s.ep), ("/home/u/Videos/Show", "Show", 2));
    let n = new.get("New").unwrap();
    assert_eq!((n.path.as_str(), n.name.as_str(), n.ep), ("/home/u/Videos/New", "New", 0));
    assert!(new.get("Film").is_none());
}

#[test]
fn refresh_twice_changes_nothing() {
    let old = watched();
    let dirs = strings(&["/v/Show", "/v/Film", "/v/Film.2020"]);
    let once = videos::refresh(&old, &dirs);
    let twice = videos::refresh(&once, &dirs);
    assert_eq!(once.sorted_keys(), strings(&["Film", "Film.2020", "Show"]));
    assert_eq!(twice.get("Film.2020").unwrap().ep, 0);
    assert_eq!(twice.sorted_keys(), once.sorted_keys());
    assert_eq!(twice.get("Film").unwrap().ep, 1);
    assert_eq!(twice.get("Show").unwrap().path, "/v/Show");
}

#[test]
fn choose_playlist_moves_the_pick_on() {
    let mut w = watched();
    let p = choose_playlist(&mut w, "Show", true).unwrap();
    assert_eq!(p.ep, 3);
    assert_eq!(w.get("Show").unwrap().ep, 3);
    let q = choose_playlist(&mut w, "Film", false).unwrap();
    assert_eq!(q.ep, 1);
    assert!(choose_playlist(&mut w, "Nope", true).is_none());
    assert_eq!(w.len(), 3);
}

#[test]
fn episode_pattern_is_written_out() {
    assert_eq!(episode_regex(0), "^0*0[^0-9]");
    assert_eq!(episode_regex(12), "^0*12[^0-9]");
}

#[test]
fn file_part_follows_the_last_slash() {
    assert_eq!(file_part("/v/Show/01.mkv"), "01.mkv");
    assert_eq!(file_part("01.mkv"), "01.mkv");
    assert_eq!(file_part("/v/"), "");
}

#[test]
fn pick_episode_takes_the_first_match() {
    assert_eq!(pick_episode(&vec![false, true, true]), Some(1));
    assert_eq!(pick_episode(&vec![false, false]), None);
}

#[test]
fn play_pl_plays_the_first_matching_video() {
    let vids = strings(&["/v/S/01 - pilot.mkv", "/v/S/012.mkv", "/v/S/02 - b.mkv", "/v/S/10.mkv"]);
    assert_eq!(play_pl(&pl("/v/S", "S", 1), &vids).unwrap().unwrap(), "/v/S/01 - pilot.mkv");
    assert_eq!(play_pl(&pl("/v/S", "S", 2), &vids).unwrap().unwrap(), "/v/S/02 - b.mkv");
    assert_eq!(play_pl(&pl("/v/S", "S", 12), &vids).unwrap().unwrap(), "/v/S/012.mkv");
    assert_eq!(play_pl(&pl("/v/S", "S", 10), &vids).unwrap().unwrap(), "/v/S/10.mkv");
    assert!(play_pl(&pl("/v/S", "S", 3), &vids).unwrap().is_none());
}

#[test]
fn play_pl_looks_at_the_file_name_only() {
    let vids = strings(&["/v/1 Season/x.mkv"]);
    assert!(play_pl(&pl("/v", "S", 1), &vids).unwrap().is_none());
}

#[test]
fn warn_invalid_quotes_the_answer() {
    assert_eq!(warn_invalid("Nope"), "Invalid choice: \"Nope\"");
    assert_eq!(warn_invalid("a\"b"), "Invalid choice: \"a\\\"b\"");
    assert_eq!(warning("'x'"), "Invalid choice: 'x'");
}

#[test]
fn video_paths_are_under_home() {
    assert_eq!(menu_videos::get_videos_path("/home/u"), "/home/u/Videos");
    assert_eq!(menu_videos::get_videos_path("/home/u/"), "/home/u/Videos");
    assert_eq!(menu_videos::get_watched_path("/home/u"), "/home/u/Videos/watched.json");
}
