//! Playlists of episodes and the progress kept for each: what both video
//! launchers share.

use vstd::prelude::*;

use regex::Error as RegexError;
use regex::Regex;

use crate::error::Error;
use crate::paths::{extension, extension_of, file_name, file_name_of};
use crate::sort::{sort_by_rank, sorted_by_rank, view_bag};
use crate::strmap::{Entry, StrMap};
use crate::text::{
    concat, decimal, decimal_string, digits_value, last_index, law_decimal_writes_the_number,
    lemma_last_index, owned, rfind_char, starts_with_char, str_eq, views,
};

verus! {

/// A directory of episodes and the episode reached.
pub struct Playlist {
    pub path: String,
    pub name: String,
    pub ep: u8,
}

impl View for Playlist {
    type V = (Seq<char>, Seq<char>, u8);

    open spec fn view(&self) -> (Seq<char>, Seq<char>, u8) {
        (self.path@, self.name@, self.ep)
    }
}

impl Entry for Playlist {
    fn duplicate(&self) -> (r: Playlist) {
        Playlist { path: self.path.clone(), name: self.name.clone(), ep: self.ep }
    }
}

impl Playlist {
    /// Moves on to the next episode.
    pub fn next_ep(&mut self)
        requires
            old(self).ep < 255,
        ensures
            final(self).ep == old(self).ep + 1,
            final(self).path@ == old(self).path@,
            final(self).name@ == old(self).name@,
    {
        self.ep = self.ep + 1;
    }
}

/// The step that the question "next episode or the same one?" takes.
pub enum NextStep {
    /// The answer is known: whether to move on.
    Decided(bool),
    /// Ask, offering these lines.
    Ask(Vec<String>),
    /// The answer was none of the lines offered.
    Invalid,
}

/// The title of the playlist in the directory `p`: its last component,
/// the name of the directory; the whole path when there is none.
pub open spec fn title_of(p: Seq<char>) -> Seq<char> {
    match file_name(p) {
        Some(n) => n,
        None => p,
    }
}

/// A playlist is titled by the name of its directory, the last folder
/// name, and is shown unless that name starts with a dot.
pub proof fn law_title_is_folder_name(base: Seq<char>, name: Seq<char>)
    requires
        name.len() > 0,
        !name.contains('/'),
        name != seq!['.'],
        name != seq!['.', '.'],
    ensures
        title_of(base + seq!['/'] + name) == name,
        is_shown(base + seq!['/'] + name) <==> name[0] != '.',
{
    crate::paths::law_file_name_is_last_name(base, name);
}

/// A file is a video exactly when its extension, what follows the last
/// dot of its name, is `mp4`, `mkv` or `webm`.
pub proof fn law_video_by_extension(base: Seq<char>, stem: Seq<char>, ext: Seq<char>)
    requires
        stem.len() > 0,
        ext.len() > 0,
        !stem.contains('/'),
        !ext.contains('/'),
        !ext.contains('.'),
    ensures
        is_video(base + seq!['/'] + stem + seq!['.'] + ext) <==> (ext == "mp4"@ || ext == "mkv"@
            || ext == "webm"@),
{
    let name = stem + seq!['.'] + ext;
    assert(!name.contains('/')) by {
        if name.contains('/') {
            let j = choose|j: int| 0 <= j < name.len() && name[j] == '/';
            if j < stem.len() {
                assert(stem[j] == '/');
            } else if j > stem.len() {
                assert(ext[j - stem.len() - 1] == '/');
            }
        }
    }
    assert(name.len() >= 3);
    assert(name != seq!['.', '.']);
    assert(name != seq!['.']);
    crate::paths::law_file_name_is_last_name(base, name);
    assert(base + seq!['/'] + stem + seq!['.'] + ext =~= base + seq!['/'] + name);
    let k = stem.len() as int;
    assert(name[k] == '.');
    lemma_last_index(name, '.');
    let l = last_index(name, '.');
    assert forall|j: int| k < j < name.len() implies name[j] != '.' by {
        assert(name[j] == ext[j - k - 1]);
    }
    if l < k {
        assert(name[k] != '.');
    }
    assert(l == k);
    assert(name.skip(k + 1) =~= ext);
}

/// The part of a path that the episode pattern is matched against is the
/// file name, what follows the last slash.
pub proof fn law_file_part_after_last_slash(dir: Seq<char>, file: Seq<char>)
    requires
        !file.contains('/'),
    ensures
        after_last_slash(dir + seq!['/'] + file) == file,
        after_last_slash(file) == file,
{
    let p = dir + seq!['/'] + file;
    let k = dir.len() as int;
    assert(p[k] == '/');
    lemma_last_index(p, '/');
    assert forall|j: int| k < j < p.len() implies p[j] != '/' by {
        assert(p[j] == file[j - k - 1]);
    }
    if last_index(p, '/') < k {
        assert(p[k] != '/');
    }
    assert(p.skip(k + 1) =~= file);
    lemma_last_index(file, '/');
    if last_index(file, '/') >= 0 {
        assert(file.contains('/'));
    }
}

/// The episode reached in the playlist titled `t`, by the progress `m`.
pub open spec fn ep_of(m: Map<Seq<char>, (Seq<char>, Seq<char>, u8)>, t: Seq<char>) -> u8 {
    if m.contains_key(t) {
        m[t].2
    } else {
        0
    }
}

/// The progress rebuilt from the directories `dirs`: one playlist per
/// directory, keyed by its title, keeping the episode reached in `old`.
pub open spec fn refreshed(
    old: Map<Seq<char>, (Seq<char>, Seq<char>, u8)>,
    dirs: Seq<Seq<char>>,
) -> Map<Seq<char>, (Seq<char>, Seq<char>, u8)>
    decreases dirs.len(),
{
    if dirs.len() == 0 {
        Map::empty()
    } else {
        let d = dirs.last();
        let t = title_of(d);
        refreshed(old, dirs.drop_last()).insert(t, (d, t, ep_of(old, t)))
    }
}

/// Every playlist that the rebuilt progress lists is titled by one of the
/// directories, holds that directory, and keeps the episode that `old`
/// had reached under its title (the first, for a new one); every
/// directory's title is listed.
pub proof fn law_refresh_keeps_progress(
    old: Map<Seq<char>, (Seq<char>, Seq<char>, u8)>,
    dirs: Seq<Seq<char>>,
)
    ensures
        forall|t: Seq<char>|
            #[trigger] refreshed(old, dirs).contains_key(t) ==> refreshed(
                old,
                dirs,
            )[t].1 == t && refreshed(old, dirs)[t].2 == ep_of(old, t) && exists|i: int|
                0 <= i < dirs.len() && title_of(dirs[i]) == t && refreshed(
                    old,
                    dirs,
                )[t].0 == dirs[i],
        forall|i: int|
            0 <= i < dirs.len() ==> refreshed(old, dirs).contains_key(
                title_of(#[trigger] dirs[i]),
            ),
    decreases dirs.len(),
{
    if dirs.len() > 0 {
        let rest = dirs.drop_last();
        law_refresh_keeps_progress(old, rest);
        let r = refreshed(old, dirs);
        let last = dirs.last();
        assert forall|t: Seq<char>| #[trigger] r.contains_key(t) implies r[t].1 == t && r[t].2
            == ep_of(old, t) && exists|i: int|
            0 <= i < dirs.len() && title_of(dirs[i]) == t && r[t].0 == dirs[i] by {
            if t == title_of(last) {
                assert(dirs[dirs.len() - 1] == last);
            } else {
                let i = choose|i: int|
                    0 <= i < rest.len() && title_of(rest[i]) == t && refreshed(
                        old,
                        rest,
                    )[t].0 == rest[i];
                assert(dirs[i] == rest[i]);
            }
        }
        assert forall|i: int| 0 <= i < dirs.len() implies r.contains_key(
            title_of(#[trigger] dirs[i]),
        ) by {
            if i < dirs.len() - 1 {
                assert(dirs[i] == rest[i]);
            }
        }
    }
}

/// Rebuilding keeps the episode reached exactly: every directory's title
/// is listed with that directory's playlist, at the episode that the old
/// progress records under the title, or at the first episode when it
/// records none; nothing else is listed.
pub proof fn law_refresh_keeps_old_episode(
    old: Map<Seq<char>, (Seq<char>, Seq<char>, u8)>,
    dirs: Seq<Seq<char>>,
)
    ensures
        forall|i: int|
            0 <= i < dirs.len() ==> {
                let t = title_of(#[trigger] dirs[i]);
                let r = refreshed(old, dirs);
                &&& r.contains_key(t)
                &&& r[t].1 == t
                &&& old.contains_key(t) ==> r[t].2 == old[t].2
                &&& !old.contains_key(t) ==> r[t].2 == 0
            },
        forall|t: Seq<char>|
            #[trigger] refreshed(old, dirs).contains_key(t) ==> exists|i: int|
                0 <= i < dirs.len() && title_of(dirs[i]) == t && refreshed(old, dirs)[t].0
                    == dirs[i],
{
    law_refresh_keeps_progress(old, dirs);
}

/// Rebuilding depends on the old progress only through the episodes
/// reached under the titles of the directories.
proof fn lemma_refreshed_congruent(
    m1: Map<Seq<char>, (Seq<char>, Seq<char>, u8)>,
    m2: Map<Seq<char>, (Seq<char>, Seq<char>, u8)>,
    dirs: Seq<Seq<char>>,
)
    requires
        forall|i: int|
            0 <= i < dirs.len() ==> ep_of(m1, title_of(#[trigger] dirs[i])) == ep_of(
                m2,
                title_of(dirs[i]),
            ),
    ensures
        refreshed(m1, dirs) == refreshed(m2, dirs),
    decreases dirs.len(),
{
    if dirs.len() > 0 {
        let rest = dirs.drop_last();
        assert forall|i: int| 0 <= i < rest.len() implies ep_of(m1, title_of(#[trigger] rest[i]))
            == ep_of(m2, title_of(rest[i])) by {
            assert(rest[i] == dirs[i]);
        }
        lemma_refreshed_congruent(m1, m2, rest);
        assert(dirs[dirs.len() - 1] == dirs.last());
    }
}

/// Rebuilding the progress a second time from the same directories
/// changes nothing.
pub proof fn law_refresh_idempotent(
    old: Map<Seq<char>, (Seq<char>, Seq<char>, u8)>,
    dirs: Seq<Seq<char>>,
)
    ensures
        refreshed(refreshed(old, dirs), dirs) == refreshed(old, dirs),
{
    let r = refreshed(old, dirs);
    law_refresh_keeps_progress(old, dirs);
    assert forall|i: int| 0 <= i < dirs.len() implies ep_of(r, title_of(#[trigger] dirs[i]))
        == ep_of(old, title_of(dirs[i])) by {
        assert(r.contains_key(title_of(dirs[i])));
    }
    lemma_refreshed_congruent(r, old, dirs);
}

/// Whether the directory `p` is shown: its title does not begin with a
/// dot.
pub open spec fn is_shown(p: Seq<char>) -> bool {
    !(title_of(p).len() > 0 && title_of(p)[0] == '.')
}

/// The entries among `es` that are shown and are directories (`dirs`) or
/// files (`!dirs`), in order; each entry is a path and whether it is a
/// directory.
pub open spec fn shown_entries(es: Seq<(Seq<char>, bool)>, dirs: bool) -> Seq<
    Seq<char>,
>
    decreases es.len(),
{
    if es.len() == 0 {
        Seq::empty()
    } else {
        let rest = shown_entries(es.drop_last(), dirs);
        let e = es.last();
        if e.1 == dirs && is_shown(e.0) {
            rest.push(e.0)
        } else {
            rest
        }
    }
}

/// The entries kept are those that are shown and are directories
/// (`dirs`) or files (`!dirs`), in order.
pub proof fn law_shown_entries_is_filter(es: Seq<(Seq<char>, bool)>, dirs: bool)
    ensures
        shown_entries(es, dirs) == es.filter(|e: (Seq<char>, bool)| e.1 == dirs && is_shown(e.0)).map_values(
            |e: (Seq<char>, bool)| e.0,
        ),
    decreases es.len(),
{
    reveal(Seq::filter);
    let p = |e: (Seq<char>, bool)| e.1 == dirs && is_shown(e.0);
    if es.len() == 0 {
        assert(es.filter(p).map_values(|e: (Seq<char>, bool)| e.0) =~= Seq::<Seq<char>>::empty());
    } else {
        law_shown_entries_is_filter(es.drop_last(), dirs);
        let f = es.drop_last().filter(p);
        if p(es.last()) {
            assert(f.push(es.last()).map_values(|e: (Seq<char>, bool)| e.0) =~= f.map_values(
                |e: (Seq<char>, bool)| e.0,
            ).push(es.last().0));
        }
    }
}

/// Whether the file `p` is a video, by its extension.
pub open spec fn is_video(p: Seq<char>) -> bool {
    match extension(p) {
        Some(e) => e == "mp4"@ || e == "mkv"@ || e == "webm"@,
        None => false,
    }
}

/// The videos among the files `fs`, in order.
pub open spec fn videos_among(fs: Seq<Seq<char>>) -> Seq<Seq<char>>
    decreases fs.len(),
{
    if fs.len() == 0 {
        Seq::empty()
    } else {
        let rest = videos_among(fs.drop_last());
        if is_video(fs.last()) {
            rest.push(fs.last())
        } else {
            rest
        }
    }
}

/// The videos kept are the files that are videos, in order.
pub proof fn law_videos_among_is_filter(fs: Seq<Seq<char>>)
    ensures
        videos_among(fs) == fs.filter(|f: Seq<char>| is_video(f)),
    decreases fs.len(),
{
    reveal(Seq::filter);
    if fs.len() > 0 {
        law_videos_among_is_filter(fs.drop_last());
    }
}

/// What follows the last slash of `p`: all of `p` when it has none.
pub open spec fn after_last_slash(p: Seq<char>) -> Seq<char> {
    let k = last_index(p, '/');
    if k < 0 {
        p
    } else {
        p.skip(k + 1)
    }
}

/// The pattern that the file of episode `ep` matches: any zeros, the
/// number, then a character that is not a digit.
pub open spec fn episode_pattern(ep: u8) -> Seq<char> {
    "^0*"@ + decimal(ep as nat) + "[^0-9]"@
}

/// Whether `Regex::new` accepts `pattern`.
pub uninterp spec fn regex_compiles(pattern: Seq<char>) -> bool;

/// Whether the regex compiled from `pattern` matches somewhere in `hay`.
pub uninterp spec fn regex_is_match(pattern: Seq<char>, hay: Seq<char>) -> bool;

#[verifier::external_type_specification]
#[verifier::external_body]
pub struct ExRegex(Regex);

/// A compiled pattern together with its source.
pub struct Matcher {
    pattern: String,
    regex: Regex,
}

impl Matcher {
    /// The source of the pattern.
    pub closed spec fn source(&self) -> Seq<char> {
        self.pattern@
    }
}

/// Calls `Regex::new`, which compiles `pattern` or reports why it cannot;
/// the result depends on the pattern alone. What the compiled regex
/// matches is left to `regex_is_match`.
#[verifier::external_body]
fn compile(pattern: &str) -> (r: Result<Matcher, RegexError>)
    ensures
        r is Ok <==> regex_compiles(pattern@),
        r matches Ok(m) ==> m.source() == pattern@,
{
    match Regex::new(pattern) {
        Ok(regex) => Ok(Matcher { pattern: pattern.to_string(), regex }),
        Err(e) => Err(e),
    }
}

/// Calls `Regex::is_match`, which tells whether the regex matches
/// somewhere in `hay`; the result depends on the pattern and `hay` alone.
#[verifier::external_body]
fn is_match(m: &Matcher, hay: &str) -> (r: bool)
    ensures
        r == regex_is_match(m.source(), hay@),
{
    m.regex.is_match(hay)
}

/// The pattern for the file of episode `ep`.
pub fn episode_regex(ep: u8) -> (r: String)
    ensures
        r@ == episode_pattern(ep),
{
    let n = decimal_string(ep as u64);
    let head = concat("^0*", n.as_str());
    head.concat("[^0-9]")
}

/// What follows the last slash of `p`.
pub fn file_part(p: &str) -> (r: String)
    ensures
        r@ == after_last_slash(p@),
{
    match rfind_char(p, '/') {
        None => owned(p),
        Some(k) => {
            proof {
                lemma_last_index(p@, '/');
            }
            let n = p.unicode_len();
            let r = owned(p.substring_char(k + 1, n));
            assert(r@ =~= p@.skip(k + 1));
            r
        },
    }
}

/// The first of the videos that `matched` marks, where `matched[i]` tells
/// whether the `i`-th video is the episode wanted.
pub fn pick_episode(matched: &Vec<bool>) -> (r: Option<usize>)
    ensures
        r matches Some(i) ==> i < matched@.len() && matched@[i as int]
            && forall|j: int| 0 <= j < i ==> !matched@[j],
        r is None ==> forall|j: int| 0 <= j < matched@.len() ==> !matched@[j],
{
    let n = matched.len();
    let mut i: usize = 0;
    while i < n
        invariant
            n == matched@.len(),
            i <= n,
            forall|j: int| 0 <= j < i ==> !matched@[j],
        decreases n - i,
    {
        if matched[i] {
            return Some(i);
        }
        i = i + 1;
    }
    None
}

/// The video to play for the playlist `pl`: the first of `videos` whose
/// file name matches the pattern of its episode; an error when the pattern
/// does not compile.
pub fn play_pl(pl: &Playlist, videos: &Vec<String>) -> (r: Result<Option<String>, Error>)
    ensures
        r is Err <==> !regex_compiles(episode_pattern(pl.ep)),
        r matches Err(e) ==> e is Regex,
        r matches Ok(Some(v)) ==> exists|i: int|
            0 <= i < videos@.len() && videos@[i]@ == v@ && regex_is_match(
                episode_pattern(pl.ep),
                after_last_slash(videos@[i]@),
            ) && forall|j: int|
                0 <= j < i ==> !regex_is_match(episode_pattern(pl.ep), after_last_slash(videos@[j]@)),
        r matches Ok(None) ==> forall|j: int|
            0 <= j < videos@.len() ==> !regex_is_match(
                episode_pattern(pl.ep),
                after_last_slash(videos@[j]@),
            ),
{
    let pattern = episode_regex(pl.ep);
    let m = match compile(pattern.as_str()) {
        Ok(m) => m,
        Err(e) => {
            return Err(Error::Regex(e));
        },
    };
    let n = videos.len();
    let mut matched: Vec<bool> = Vec::new();
    let mut i: usize = 0;
    while i < n
        invariant
            n == videos@.len(),
            i <= n,
            matched@.len() == i,
            m.source() == episode_pattern(pl.ep),
            forall|j: int|
                0 <= j < i ==> #[trigger] matched@[j] == regex_is_match(
                    episode_pattern(pl.ep),
                    after_last_slash(videos@[j]@),
                ),
        decreases n - i,
    {
        let f = file_part(videos[i].as_str());
        let hit = is_match(&m, f.as_str());
        matched.push(hit);
        i = i + 1;
    }
    match pick_episode(&matched) {
        None => {
            assert forall|j: int| 0 <= j < videos@.len() implies !regex_is_match(
                episode_pattern(pl.ep),
                after_last_slash(videos@[j]@),
            ) by {
                assert(!matched@[j]);
            }
            Ok(None)
        },
        Some(k) => {
            let v = videos[k].clone();
            assert(matched@[k as int]);
            assert forall|j: int| 0 <= j < k implies !regex_is_match(
                episode_pattern(pl.ep),
                after_last_slash(videos@[j]@),
            ) by {
                assert(!matched@[j]);
            }
            Ok(Some(v))
        },
    }
}

/// The line that moves on to the next episode.
pub open spec fn play_line(ep: u8) -> Seq<char> {
    "Play next episode ("@ + decimal((ep + 1) as nat) + ")"@
}

/// The line that stays with the episode reached.
pub open spec fn continue_line(ep: u8) -> Seq<char> {
    "Continue previous episode ("@ + decimal(ep as nat) + ")"@
}

/// The lines offered name the episodes in decimal: the line that moves on
/// names the next episode, the line that stays the one reached, and the
/// pattern looks for the one reached.
pub proof fn law_lines_name_episodes(ep: u8) -> (ds: (Seq<char>, Seq<char>))
    requires
        ep < 255,
    ensures
        play_line(ep) == "Play next episode ("@ + ds.0 + ")"@,
        continue_line(ep) == "Continue previous episode ("@ + ds.1 + ")"@,
        episode_pattern(ep) == "^0*"@ + ds.1 + "[^0-9]"@,
        digits_value(ds.0) == ep + 1,
        digits_value(ds.1) == ep,
        forall|i: int| 0 <= i < ds.0.len() ==> 48 <= (#[trigger] ds.0[i] as u32) <= 57,
        forall|i: int| 0 <= i < ds.1.len() ==> 48 <= (#[trigger] ds.1[i] as u32) <= 57,
        ds.0.len() > 1 ==> ds.0[0] != '0',
        ds.1.len() > 1 ==> ds.1[0] != '0',
{
    law_decimal_writes_the_number((ep + 1) as nat);
    law_decimal_writes_the_number(ep as nat);
    (decimal((ep + 1) as nat), decimal(ep as nat))
}

/// The line that moves on to the next episode.
pub fn play_text(ep: u8) -> (r: String)
    requires
        ep < 255,
    ensures
        r@ == play_line(ep),
{
    let n = decimal_string((ep + 1) as u64);
    let head = concat("Play next episode (", n.as_str());
    head.concat(")")
}

/// The line that stays with the episode reached.
pub fn continue_text(ep: u8) -> (r: String)
    ensures
        r@ == continue_line(ep),
{
    let n = decimal_string(ep as u64);
    let head = concat("Continue previous episode (", n.as_str());
    head.concat(")")
}

/// The title of the playlist in the directory `p`.
pub fn title(p: &str) -> (r: String)
    ensures
        r@ == title_of(p@),
{
    match file_name_of(p) {
        Some(n) => n,
        None => owned(p),
    }
}

/// The progress rebuilt from the directories `dirs`.
pub fn refresh_watched(old: &StrMap<Playlist>, dirs: &Vec<String>) -> (r: StrMap<
    Playlist,
>)
    ensures
        r@ == refreshed(old@, views(dirs@)),
{
    let mut new = StrMap::new();
    let n = dirs.len();
    let mut i: usize = 0;
    while i < n
        invariant
            n == dirs@.len(),
            i <= n,
            new@ == refreshed(old@, views(dirs@.take(i as int))),
        decreases n - i,
    {
        assert(views(dirs@.take(i + 1)).drop_last() =~= views(dirs@.take(i as int)));
        assert(views(dirs@.take(i + 1)).last() == dirs@[i as int]@);
        let t = title(dirs[i].as_str());
        let ep = match old.get(t.as_str()) {
            Some(pl) => pl.ep,
            None => 0,
        };
        let p = Playlist { path: dirs[i].clone(), name: t.clone(), ep };
        new.insert(t, p);
        i = i + 1;
    }
    assert(dirs@.take(n as int) =~= dirs@);
    new
}

/// Whether the directory `p` is shown.
pub fn shown(p: &str) -> (r: bool)
    ensures
        r == is_shown(p@),
{
    let t = title(p);
    !starts_with_char(t.as_str(), '.')
}

/// The views of a list of paths, each marked as a directory or not.
pub open spec fn entry_views(es: Seq<(String, bool)>) -> Seq<(Seq<char>, bool)> {
    es.map_values(|e: (String, bool)| (e.0@, e.1))
}

/// The shown entries among `entries` that are directories (`dirs`) or
/// files (`!dirs`), in order.
pub fn list_shown(entries: &Vec<(String, bool)>, dirs: bool) -> (r: Vec<String>)
    ensures
        views(r@) == shown_entries(entry_views(entries@), dirs),
{
    let n = entries.len();
    let mut out: Vec<String> = Vec::new();
    let mut i: usize = 0;
    while i < n
        invariant
            n == entries@.len(),
            i <= n,
            views(out@) == shown_entries(entry_views(entries@.take(i as int)), dirs),
        decreases n - i,
    {
        assert(entry_views(entries@.take(i + 1)).drop_last() =~= entry_views(entries@.take(i as int)));
        assert(entry_views(entries@.take(i + 1)).last() == (entries@[i as int].0@, entries@[i as int].1));
        let ghost before = out@;
        if entries[i].1 == dirs && shown(entries[i].0.as_str()) {
            out.push(entries[i].0.clone());
            assert(views(out@) =~= views(before).push(entries@[i as int].0@));
        }
        i = i + 1;
    }
    assert(entries@.take(n as int) =~= entries@);
    out
}

/// Whether the file `p` is a video.
pub fn video(p: &str) -> (r: bool)
    ensures
        r == is_video(p@),
{
    match extension_of(p) {
        None => false,
        Some(e) => {
            let s = e.as_str();
            str_eq(s, "mp4") || str_eq(s, "mkv") || str_eq(s, "webm")
        },
    }
}

/// The videos among `files`, sorted.
pub fn sorted_videos(files: &Vec<String>) -> (r: Vec<String>)
    ensures
        sorted_by_rank(r@),
        view_bag(r@) == videos_among(views(files@)).to_multiset(),
{
    let n = files.len();
    let mut out: Vec<String> = Vec::new();
    let mut i: usize = 0;
    while i < n
        invariant
            n == files@.len(),
            i <= n,
            views(out@) == videos_among(views(files@.take(i as int))),
        decreases n - i,
    {
        assert(views(files@.take(i + 1)).drop_last() =~= views(files@.take(i as int)));
        assert(views(files@.take(i + 1)).last() == files@[i as int]@);
        let ghost before = out@;
        if video(files[i].as_str()) {
            out.push(files[i].clone());
            assert(views(out@) =~= views(before).push(files@[i as int]@));
        }
        i = i + 1;
    }
    assert(files@.take(n as int) =~= files@);
    assert(out@.map_values(|t: String| t@) =~= views(out@));
    sort_by_rank(out)
}

/// What the command line asks of a video launcher.
pub enum Mode {
    /// Pick a playlist and play its episode.
    Menu,
    /// Rebuild the progress from the video directories.
    Refresh,
    /// An option that is not known.
    Unknown(String),
    /// More arguments than one option.
    TooMany,
}

/// The mode that the arguments `args`, the program's name first, ask for.
pub fn mode(args: &Vec<String>) -> (r: Mode)
    ensures
        args@.len() == 1 <==> r is Menu,
        r is Refresh <==> args@.len() == 2 && args@[1]@ == "refresh"@,
        r matches Mode::Unknown(o) ==> args@.len() == 2 && o@ == args@[1]@,
        args@.len() == 2 && args@[1]@ != "refresh"@ ==> r is Unknown,
        r is TooMany <==> args@.len() != 1 && args@.len() != 2,
{
    let n = args.len();
    if n == 1 {
        Mode::Menu
    } else if n == 2 {
        if str_eq(args[1].as_str(), "refresh") {
            Mode::Refresh
        } else {
            Mode::Unknown(args[1].clone())
        }
    } else {
        Mode::TooMany
    }
}

/// What `{:?}` writes for a string: the string quoted, with its special
/// characters escaped.
pub uninterp spec fn debug_text(s: Seq<char>) -> Seq<char>;

/// Formats `s` with `{:?}`, std's `Debug` for `str`; the result depends on
/// `s` alone.
#[verifier::external_body]
fn debug_quoted(s: &str) -> (r: String)
    ensures
        r@ == debug_text(s@),
{
    format!("{:?}", s)
}

/// The warning shown for the answer whose debug form is `quoted`.
pub fn warning(quoted: &str) -> (r: String)
    ensures
        r@ == "Invalid choice: "@ + quoted@,
{
    concat("Invalid choice: ", quoted)
}

/// The warning shown for an answer that is none of those offered.
pub fn warn_invalid(choice: &str) -> (r: String)
    ensures
        r@ == "Invalid choice: "@ + debug_text(choice@),
{
    let q = debug_quoted(choice);
    warning(q.as_str())
}

/// `pl` moved on by one episode when `next`.
pub open spec fn advanced(pl: (Seq<char>, Seq<char>, u8), next: bool) -> (Seq<char>, Seq<char>, u8) {
    if next {
        (pl.0, pl.1, (pl.2 + 1) as u8)
    } else {
        pl
    }
}

/// Moving a playlist on takes it to the next episode, whatever episode it
/// had reached, the first included, and keeps its directory and title;
/// not moving it on leaves it as it was.
pub proof fn law_advance_moves_on_by_one(pl: (Seq<char>, Seq<char>, u8), next: bool)
    requires
        pl.2 < 255,
    ensures
        advanced(pl, next).0 == pl.0,
        advanced(pl, next).1 == pl.1,
        next ==> advanced(pl, next).2 == pl.2 + 1,
        !next ==> advanced(pl, next) == pl,
{
}

/// Takes the playlist that the answer `choice` names, moving it on to the
/// next episode when `next`; `None`, with nothing changed, when no
/// playlist has that name.
pub fn choose_playlist(watched: &mut StrMap<Playlist>, choice: &str, next: bool) -> (r: Option<
    Playlist,
>)
    requires
        next && old(watched)@.contains_key(choice@) ==> old(watched)@[choice@].2 < 255,
    ensures
        r is None <==> !old(watched)@.contains_key(choice@),
        r is None ==> final(watched)@ == old(watched)@,
        r matches Some(p) ==> p@ == advanced(old(watched)@[choice@], next) && final(watched)@
            == old(watched)@.insert(choice@, p@),
        r matches Some(p) ==> p.path@ == old(watched)@[choice@].0 && p.name@ == old(watched)@[
            choice@].1 && p.ep == (if next {
            old(watched)@[choice@].2 + 1
        } else {
            old(watched)@[choice@].2 as int
        }),
        r matches Some(p) ==> final(watched)@[choice@] == p@ && final(watched)@.dom()
            == old(watched)@.dom(),
{
    let found = match watched.get(choice) {
        None => None,
        Some(pl) => Some(pl.duplicate()),
    };
    match found {
        None => None,
        Some(mut pl) => {
            if next {
                pl.next_ep();
            }
            let kept = pl.duplicate();
            watched.insert(owned(choice), pl);
            Some(kept)
        },
    }
}

} // verus!
