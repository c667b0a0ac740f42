//! The video launcher that keeps its progress in JSON: playlists are
//! titled by their directory name, and the question about the next
//! episode is answered by picking one of the offered lines exactly.

use vstd::prelude::*;
use vstd::utf8::{decode_utf8, valid_utf8};

use crate::paths::extension_of;
use crate::playlist::{
    continue_line, continue_text, entry_views, is_video, list_shown, play_line, play_text,
    refresh_watched, refreshed, shown_entries, title, title_of, videos_among, NextStep, Playlist,
};
use crate::sort::{sort_by_rank, sorted_by_rank, view_bag};
use crate::strmap::{sorted_keys_of, StrMap};
use crate::text::{lex_le, str_eq, views};

pub use crate::playlist::{play_pl, warn_invalid};

verus! {

/// The playlists to offer: their titles, in lexicographic order.
pub fn menu(watched: &StrMap<Playlist>) -> (r: Vec<String>)
    ensures
        sorted_keys_of(views(r@), watched@),
{
    watched.sorted_keys()
}

/// What the answer `a` to the question about the next episode of a
/// playlist at episode `ep` decides: only the two lines offered are
/// understood.
pub open spec fn answered(a: Seq<char>, ep: u8) -> NextStep {
    if a == play_line(ep) {
        NextStep::Decided(true)
    } else if a == continue_line(ep) {
        NextStep::Decided(false)
    } else {
        NextStep::Invalid
    }
}

/// The two lines offered are distinct and come in lexicographic order,
/// and picking one gives the decision it names: the line that stays comes
/// first, the line that moves on second.
pub proof fn law_offered_lines_decide(ep: u8)
    requires
        ep < 255,
    ensures
        lex_le(continue_line(ep), play_line(ep)),
        continue_line(ep) != play_line(ep),
        answered(play_line(ep), ep) == NextStep::Decided(true),
        answered(continue_line(ep), ep) == NextStep::Decided(false),
{
    reveal_strlit("Play next episode (");
    reveal_strlit("Continue previous episode (");
    let p = play_line(ep);
    let c = continue_line(ep);
    assert(p[0] == 'P');
    assert(c[0] == 'C');
    assert(lex_le(c, p));
}

/// Whether to move on to the next episode of `pl`. A playlist not yet
/// started moves on at once. Otherwise, with no `answer` yet, the two
/// lines to offer, in lexicographic order; with one, whether it is the
/// line that moves on or the one that stays, and `Invalid` when it is
/// neither.
pub fn if_next(pl: &Playlist, answer: Option<&str>) -> (r: NextStep)
    requires
        pl.ep < 255,
    ensures
        pl.ep == 0 ==> r == NextStep::Decided(true),
        pl.ep != 0 && answer is None ==> (r matches NextStep::Ask(lines) && lines@.len() == 2
            && lines@[0]@ == continue_line(pl.ep) && lines@[1]@ == play_line(pl.ep)),
        answer matches Some(a) ==> (pl.ep != 0 ==> r == answered(a@, pl.ep)),
{
    if pl.ep == 0 {
        return NextStep::Decided(true);
    }
    let play = play_text(pl.ep);
    let keep = continue_text(pl.ep);
    match answer {
        None => {
            let mut lines: Vec<String> = Vec::new();
            lines.push(keep);
            lines.push(play);
            NextStep::Ask(lines)
        },
        Some(a) => {
            if str_eq(a, play.as_str()) {
                NextStep::Decided(true)
            } else if str_eq(a, keep.as_str()) {
                NextStep::Decided(false)
            } else {
                NextStep::Invalid
            }
        },
    }
}

/// The title of the directory `p`: the last folder name, or all of `p`
/// when it has none.
pub fn pretty(p: &str) -> (r: String)
    ensures
        r@ == title_of(p@),
{
    title(p)
}

/// The text of a path given as raw bytes, which must be UTF-8.
pub fn path2string(path: Vec<u8>) -> (r: String)
    requires
        valid_utf8(path@),
    ensures
        r@ == decode_utf8(path@),
{
    match crate::decode_text(path) {
        Ok(s) => s,
        Err(_) => {
            proof {
                assert(false);
            }
            String::new()
        },
    }
}

/// Whether `elem` is one of the strings in `array`.
pub fn array_has(array: &[&str], elem: &str) -> (r: bool)
    ensures
        r == exists|i: int| 0 <= i < array@.len() && #[trigger] array@[i]@ == elem@,
{
    let n = array.len();
    let mut i: usize = 0;
    while i < n
        invariant
            n == array@.len(),
            i <= n,
            forall|j: int| 0 <= j < i ==> #[trigger] array@[j]@ != elem@,
        decreases n - i,
    {
        if str_eq(array[i], elem) {
            return true;
        }
        i = i + 1;
    }
    false
}

/// Whether the file `p` is a video: its extension is one of those of
/// videos.
pub fn is_video_file(p: &str) -> (r: bool)
    ensures
        r == is_video(p@),
{
    let exts: [&str; 3] = ["mp4", "mkv", "webm"];
    match extension_of(p) {
        None => false,
        Some(e) => {
            let r = array_has(exts.as_slice(), e.as_str());
            proof {
                assert(exts@[0]@ == "mp4"@);
                assert(exts@[1]@ == "mkv"@);
                assert(exts@[2]@ == "webm"@);
            }
            r
        },
    }
}

/// The videos of a playlist among its files, in lexicographic order.
pub fn list_videos(files: &Vec<String>) -> (r: Vec<String>)
    ensures
        sorted_by_rank(r@),
        view_bag(r@) == videos_among(views(files@)).to_multiset(),
{
    let n = files.len();
    let mut out: Vec<String> = Vec::new();
    let mut i: usize = 0;
    while i < n
        invariant
            n == files@.len(),
            i <= n,
            views(out@) == videos_among(views(files@.take(i as int))),
        decreases n - i,
    {
        assert(views(files@.take(i + 1)).drop_last() =~= views(files@.take(i as int)));
        assert(views(files@.take(i + 1)).last() == files@[i as int]@);
        let ghost before = out@;
        if is_video_file(files[i].as_str()) {
            out.push(files[i].clone());
            assert(views(out@) =~= views(before).push(files@[i as int]@));
        }
        i = i + 1;
    }
    assert(files@.take(n as int) =~= files@);
    assert(out@.map_values(|t: String| t@) =~= views(out@));
    sort_by_rank(out)
}

/// The playlists among the entries of the video directory: the
/// directories whose title does not start with a dot, in order.
pub fn list_dirs(entries: &Vec<(String, bool)>) -> (r: Vec<String>)
    ensures
        views(r@) == shown_entries(entry_views(entries@), true),
{
    list_shown(entries, true)
}

/// The entries of the video directory that are passed over for being
/// files, in order; those whose title starts with a dot are not among
/// them.
pub fn skipped_files(entries: &Vec<(String, bool)>) -> (r: Vec<String>)
    ensures
        views(r@) == shown_entries(entry_views(entries@), false),
{
    list_shown(entries, false)
}

/// The progress rebuilt from the playlist directories `dirs`, keeping the
/// episode reached in `old`.
pub fn refresh(old: &StrMap<Playlist>, dirs: &Vec<String>) -> (r: StrMap<Playlist>)
    ensures
        r@ == refreshed(old@, views(dirs@)),
{
    refresh_watched(old, dirs)
}

} // verus!
