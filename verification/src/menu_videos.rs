//! The video launcher that keeps its progress in YAML: playlists are
//! titled by directory name, and the question about the next episode is
//! answered by the start of the line picked.

use vstd::prelude::*;
use vstd::utf8::{decode_utf8, valid_utf8};

use crate::paths::{join, join_path};
use crate::playlist::{
    continue_line, continue_text, list_shown, play_line, play_text, refresh_watched,
    refreshed, shown_entries, entry_views, sorted_videos, title, title_of, videos_among,
    NextStep, Playlist,
};
use crate::sort::{sorted_by_rank, view_bag};
use crate::strmap::{sorted_keys_of, StrMap};
use crate::text::{starts_with, views};

pub use crate::playlist::{play_pl, warn_invalid};

verus! {

/// The playlists to offer: their titles, in lexicographic order.
pub fn menu(watched: &StrMap<Playlist>) -> (r: Vec<String>)
    ensures
        sorted_keys_of(views(r@), watched@),
{
    watched.sorted_keys()
}

/// What the answer `a` to the question about the next episode decides:
/// a line that starts with `Play` moves on, one that starts with
/// `Continue` stays.
pub open spec fn answered(a: Seq<char>) -> NextStep {
    if "Play"@.is_prefix_of(a) {
        NextStep::Decided(true)
    } else if "Continue"@.is_prefix_of(a) {
        NextStep::Decided(false)
    } else {
        NextStep::Invalid
    }
}

/// An answer moves on exactly when its first four characters are `Play`,
/// stays exactly when it does not and its first eight are `Continue`, and
/// is invalid otherwise.
pub proof fn law_answer_read_by_its_start(a: Seq<char>)
    ensures
        answered(a) == NextStep::Decided(true) <==> a.len() >= 4 && a.take(4) == "Play"@,
        answered(a) == NextStep::Decided(false) <==> !(a.len() >= 4 && a.take(4) == "Play"@)
            && a.len() >= 8 && a.take(8) == "Continue"@,
        answered(a) == NextStep::Invalid <==> !(a.len() >= 4 && a.take(4) == "Play"@) && !(a.len()
            >= 8 && a.take(8) == "Continue"@),
{
    reveal_strlit("Play");
    reveal_strlit("Continue");
    assert("Play"@.len() == 4);
    assert("Continue"@.len() == 8);
    if a.len() >= 4 {
        assert(a.subrange(0, 4) =~= a.take(4));
    }
    if a.len() >= 8 {
        assert(a.subrange(0, 8) =~= a.take(8));
    }
}

/// Picking one of the two lines offered gives the decision it names: the
/// first moves on to the next episode, the second stays.
pub proof fn law_offered_lines_decide(ep: u8)
    requires
        ep < 255,
    ensures
        answered(play_line(ep)) == NextStep::Decided(true),
        answered(continue_line(ep)) == NextStep::Decided(false),
{
    reveal_strlit("Play");
    reveal_strlit("Continue");
    reveal_strlit("Play next episode (");
    reveal_strlit("Continue previous episode (");
    let p = play_line(ep);
    let c = continue_line(ep);
    assert(p.subrange(0, 4) =~= "Play"@);
    assert(c[0] == 'C');
    assert(c.subrange(0, 4)[0] != "Play"@[0]);
    assert(!"Play"@.is_prefix_of(c));
    assert(c.subrange(0, 8) =~= "Continue"@);
}

/// Whether to move on to the next episode of `pl`. A playlist not yet
/// started moves on at once. Otherwise, with no `answer` yet, the two
/// lines to offer; with one, whether it starts with `Play` (move on) or
/// `Continue` (stay), and `Invalid` when it starts with neither.
pub fn if_next(pl: &Playlist, answer: Option<&str>) -> (r: NextStep)
    requires
        pl.ep < 255,
    ensures
        pl.ep == 0 ==> r == NextStep::Decided(true),
        pl.ep != 0 && answer is None ==> (r matches NextStep::Ask(lines) && lines@.len() == 2
            && lines@[0]@ == play_line(pl.ep) && lines@[1]@ == continue_line(pl.ep)),
        answer matches Some(a) ==> (pl.ep != 0 ==> r == answered(a@)),
{
    if pl.ep == 0 {
        return NextStep::Decided(true);
    }
    match answer {
        None => {
            let mut lines: Vec<String> = Vec::new();
            lines.push(play_text(pl.ep));
            lines.push(continue_text(pl.ep));
            NextStep::Ask(lines)
        },
        Some(a) => {
            if starts_with(a, "Play") {
                NextStep::Decided(true)
            } else if starts_with(a, "Continue") {
                NextStep::Decided(false)
            } else {
                NextStep::Invalid
            }
        },
    }
}

/// The title of the directory `p`: its last component, or all of `p`
/// when it has none.
pub fn pretty(p: &str) -> (r: String)
    ensures
        r@ == title_of(p@),
{
    title(p)
}

/// The text of a path given as raw bytes; empty when they are not UTF-8.
pub fn path2string(path: Vec<u8>) -> (r: String)
    ensures
        valid_utf8(path@) ==> r@ == decode_utf8(path@),
        !valid_utf8(path@) ==> r@.len() == 0,
{
    match crate::decode_text(path) {
        Ok(s) => s,
        Err(_) => String::new(),
    }
}

/// The playlists among the entries of the video directory: the
/// directories whose title does not start with a dot, in order.
pub fn list_dirs(entries: &Vec<(String, bool)>) -> (r: Vec<String>)
    ensures
        views(r@) == shown_entries(entry_views(entries@), true),
{
    list_shown(entries, true)
}

/// The videos of a playlist among its files, in lexicographic order.
pub fn list_videos(files: &Vec<String>) -> (r: Vec<String>)
    ensures
        sorted_by_rank(r@),
        view_bag(r@) == videos_among(views(files@)).to_multiset(),
{
    sorted_videos(files)
}

/// The progress rebuilt from the playlist directories `dirs`, keeping the
/// episode reached in `old`.
pub fn refresh(old: &StrMap<Playlist>, dirs: &Vec<String>) -> (r: StrMap<Playlist>)
    ensures
        r@ == refreshed(old@, views(dirs@)),
{
    refresh_watched(old, dirs)
}

/// The video directory under the home directory `home`.
pub fn get_videos_path(home: &str) -> (r: String)
    ensures
        r@ == join(home@, "Videos"@),
{
    join_path(home, "Videos")
}

/// The file that keeps the progress, in the video directory.
pub fn get_watched_path(home: &str) -> (r: String)
    ensures
        r@ == join(join(home@, "Videos"@), "watched.json"@),
{
    let v = get_videos_path(home);
    join_path(v.as_str(), "watched.json")
}

} // verus!
