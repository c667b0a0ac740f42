//! The note picker: notes are files named by an identifier and a title,
//! listed by title; an answer that names no note starts a new one.

use vstd::prelude::*;

use crate::paths::{opt_views, visible_names, visible_names_of};
use crate::sort::{lemma_filter_front, same_rank, sort_by_rank, Ranked};
use crate::text::{
    concat, find_char, first_index, first_index_unique, lemma_first_index, lemma_lex_antisym, lemma_lex_refl,
    lemma_lex_total, lemma_lex_trans, lex_le,
    lex_le_exec, owned, str_eq, views,
};

verus! {

/// The directory of notes under the home directory `home`.
pub fn get_notes_dir(home: &str) -> (r: String)
    ensures
        r@ == home@ + "/Notes"@,
{
    concat(home, "/Notes")
}

/// The notes among the entries of the notes directory, given as the text
/// of their paths (`None` where a path is not UTF-8): the file names that
/// do not start with a dot, in order.
pub fn read_path(paths: &Vec<Option<String>>) -> (r: Vec<String>)
    ensures
        views(r@) == visible_names(opt_views(paths@)),
{
    visible_names_of(paths)
}

/// What a note is listed by: what follows the first space of its name,
/// or the whole name when it has none.
pub open spec fn note_key(name: Seq<char>) -> Seq<char> {
    let k = first_index(name, ' ');
    if k < 0 {
        name
    } else {
        name.skip(k + 1)
    }
}

/// A note is listed by what follows its first space, wherever that space
/// is, and by its whole name when it has no space.
pub proof fn law_listed_after_first_space(name: Seq<char>, k: int)
    ensures
        0 <= k < name.len() && name[k] == ' ' && (forall|j: int| 0 <= j < k ==> name[j] != ' ')
            ==> note_key(name) == name.skip(k + 1),
        (forall|j: int| 0 <= j < name.len() ==> name[j] != ' ') ==> note_key(name) == name,
{
    lemma_first_index(name, ' ');
    if 0 <= k < name.len() && name[k] == ' ' && (forall|j: int| 0 <= j < k ==> name[j] != ' ') {
        first_index_unique(name, ' ', k);
    }
    if forall|j: int| 0 <= j < name.len() ==> name[j] != ' ' {
        if first_index(name, ' ') >= 0 {
            assert(name[first_index(name, ' ')] == ' ');
        }
    }
}

/// The names among `s` that are listed by `t`, in order.
pub open spec fn with_key(s: Seq<Seq<char>>, t: Seq<char>) -> Seq<Seq<char>>
    decreases s.len(),
{
    if s.len() == 0 {
        Seq::empty()
    } else {
        let rest = with_key(s.drop_first(), t);
        if note_key(s[0]) == t {
            seq![s[0]] + rest
        } else {
            rest
        }
    }
}

/// The names listed by `t` are the names of `s` whose listing text is `t`,
/// in the order of `s`.
pub proof fn law_with_key_is_filter(s: Seq<Seq<char>>, t: Seq<char>)
    ensures
        with_key(s, t) == s.filter(|x: Seq<char>| note_key(x) == t),
    decreases s.len(),
{
    if s.len() == 0 {
        reveal(Seq::filter);
        assert(s.filter(|x: Seq<char>| note_key(x) == t) =~= Seq::<Seq<char>>::empty());
    } else {
        law_with_key_is_filter(s.drop_first(), t);
        lemma_filter_front(s, |x: Seq<char>| note_key(x) == t);
        if note_key(s[0]) != t {
            assert(Seq::<Seq<char>>::empty() + s.drop_first().filter(|x: Seq<char>| note_key(x) == t)
                =~= s.drop_first().filter(|x: Seq<char>| note_key(x) == t));
        }
    }
}

/// A note's name, ordered by what it is listed by.
pub struct Note {
    pub name: String,
}

impl View for Note {
    type V = Seq<char>;

    open spec fn view(&self) -> Seq<char> {
        self.name@
    }
}

/// What `name` is listed by.
fn key_of(name: &str) -> (r: String)
    ensures
        r@ == note_key(name@),
{
    match find_char(name, ' ') {
        None => owned(name),
        Some(k) => {
            proof {
                lemma_first_index(name@, ' ');
            }
            let n = name.unicode_len();
            let r = owned(name.substring_char(k + 1, n));
            assert(r@ =~= name@.skip(k + 1));
            r
        },
    }
}

impl Ranked for Note {
    open spec fn rank_le(&self, other: &Self) -> bool {
        lex_le(note_key(self.name@), note_key(other.name@))
    }

    proof fn lemma_rank_total(a: &Self, b: &Self) {
        lemma_lex_total(note_key(a.name@), note_key(b.name@));
    }

    proof fn lemma_rank_trans(a: &Self, b: &Self, c: &Self) {
        lemma_lex_trans(note_key(a.name@), note_key(b.name@), note_key(c.name@));
    }

    fn ranks_before(&self, other: &Self) -> (r: bool) {
        let a = key_of(self.name.as_str());
        let b = key_of(other.name.as_str());
        lex_le_exec(a.as_str(), b.as_str())
    }
}

/// The notes that rank as `x` does are those listed by the same text.
proof fn lemma_same_rank_key(s: Seq<Note>, x: Note)
    ensures
        same_rank(s, x) == with_key(s.map_values(|n: Note| n@), note_key(x@)),
    decreases s.len(),
{
    if s.len() > 0 {
        lemma_same_rank_key(s.drop_first(), x);
        let sv = s.map_values(|n: Note| n@);
        assert(s.drop_first().map_values(|n: Note| n@) =~= sv.drop_first());
        assert(sv[0] == s[0]@);
        let a = note_key(s[0]@);
        let b = note_key(x@);
        if lex_le(a, b) && lex_le(b, a) {
            lemma_lex_antisym(a, b);
        }
        if a == b {
            lemma_lex_refl(a);
        }
    }
}

/// The notes in the order in which they are listed: by what follows the
/// first space of their names; notes listed by the same text keep their
/// order.
pub fn sort_notes(notes: Vec<String>) -> (r: Vec<String>)
    ensures
        r@.len() == notes@.len(),
        forall|i: int, j: int|
            0 <= i < j < r@.len() ==> lex_le(note_key(r@[i]@), note_key(r@[j]@)),
        views(r@).to_multiset() == views(notes@).to_multiset(),
        forall|i: int|
            0 <= i < notes@.len() ==> with_key(views(r@), note_key(#[trigger] notes@[i]@))
                == with_key(views(notes@), note_key(notes@[i]@)),
{
    let n = notes.len();
    let mut wrapped: Vec<Note> = Vec::new();
    let mut rest = notes;
    let ghost orig = rest@;
    let mut i: usize = 0;
    while i < n
        invariant
            n == orig.len(),
            i <= n,
            rest@ == orig.skip(i as int),
            wrapped@.len() == i,
            forall|j: int| 0 <= j < i ==> #[trigger] wrapped@[j]@ == orig[j]@,
        decreases n - i,
    {
        let ghost before = rest@;
        let s = rest.remove(0);
        assert(rest@ =~= orig.skip(i + 1));
        wrapped.push(Note { name: s });
        i = i + 1;
    }
    let ghost unsorted = wrapped@;
    assert(unsorted.map_values(|t: Note| t@) =~= views(orig));
    let sorted = sort_by_rank(wrapped);
    let mut out: Vec<String> = Vec::new();
    let mut rest2 = sorted;
    let ghost srt = rest2@;
    let mut p: usize = 0;
    while p < n
        invariant
            n == srt.len(),
            p <= n,
            rest2@ == srt.skip(p as int),
            out@.len() == p,
            forall|j: int| 0 <= j < p ==> #[trigger] out@[j]@ == srt[j]@,
        decreases n - p,
    {
        let w = rest2.remove(0);
        assert(rest2@ =~= srt.skip(p + 1));
        out.push(w.name);
        p = p + 1;
    }
    assert(srt.map_values(|t: Note| t@) =~= views(out@));
    assert forall|a: int, b: int| 0 <= a < b < out@.len() implies lex_le(
        note_key(out@[a]@),
        note_key(out@[b]@),
    ) by {
        assert(srt[a].rank_le(&srt[b]));
    }
    assert forall|i: int| 0 <= i < orig.len() implies with_key(views(out@), note_key(#[trigger] orig[i]@))
        == with_key(views(orig), note_key(orig[i]@)) by {
        let x = unsorted[i];
        assert(x@ == orig[i]@);
        assert(same_rank(srt, x) == same_rank(unsorted, x));
        lemma_same_rank_key(srt, x);
        lemma_same_rank_key(unsorted, x);
    }
    out
}

/// Whether `c` is a lowercase hexadecimal digit.
pub open spec fn is_lower_hex(c: char) -> bool {
    ('0' <= c && c <= '9') || ('a' <= c && c <= 'f')
}

/// Whether `s` is a random UUID as `Uuid` writes it: five groups of
/// lowercase hexadecimal digits joined by hyphens, of version 4.
pub open spec fn is_v4_text(s: Seq<char>) -> bool {
    &&& s.len() == 36
    &&& forall|i: int|
        0 <= i < 36 ==> if i == 8 || i == 13 || i == 18 || i == 23 {
            s[i] == '-'
        } else {
            is_lower_hex(#[trigger] s[i])
        }
    &&& s[14] == '4'
    &&& s[19] == '8' || s[19] == '9' || s[19] == 'a' || s[19] == 'b'
}

/// Calls `Uuid::new_v4` and writes the result with `to_string`: a random
/// UUID of version 4 and the RFC variant, in the hyphenated lowercase
/// form. Which one comes out is left open.
#[verifier::external_body]
fn new_uuid_text() -> (r: String)
    ensures
        is_v4_text(r@),
{
    uuid::Uuid::new_v4().to_string()
}

/// Whether `id` can name a new note: eight lowercase hexadecimal digits.
pub open spec fn is_note_id(id: Seq<char>) -> bool {
    id.len() == 8 && forall|i: int| 0 <= i < 8 ==> is_lower_hex(#[trigger] id[i])
}

/// The identifier taken from the UUID text `uuid`: its first eight
/// characters, as `String::truncate(8)` leaves them.
pub fn note_id(uuid: &str) -> (r: String)
    requires
        is_v4_text(uuid@),
    ensures
        r@ == uuid@.take(8),
        is_note_id(r@),
{
    let r = owned(uuid.substring_char(0, 8));
    assert(r@ =~= uuid@.take(8));
    assert forall|i: int| 0 <= i < 8 implies is_lower_hex(#[trigger] r@[i]) by {
        assert(r@[i] == uuid@[i]);
        assert(is_lower_hex(uuid@[i]));
    }
    r
}

/// A fresh identifier for a new note: the first eight digits of a random
/// UUID.
pub fn get_id() -> (r: String)
    ensures
        exists|u: Seq<char>| is_v4_text(u) && r@ == u.take(8),
        is_note_id(r@),
{
    let u = new_uuid_text();
    note_id(u.as_str())
}

/// Whether `notes` holds a note named `name`.
pub fn has_note(notes: &Vec<String>, name: &str) -> (r: bool)
    ensures
        r == views(notes@).contains(name@),
{
    let n = notes.len();
    let mut i: usize = 0;
    while i < n
        invariant
            n == notes@.len(),
            i <= n,
            forall|j: int| 0 <= j < i ==> notes@[j]@ != name@,
        decreases n - i,
    {
        if str_eq(notes[i].as_str(), name) {
            assert(views(notes@)[i as int] == name@);
            return true;
        }
        i = i + 1;
    }
    assert forall|j: int| 0 <= j < views(notes@).len() implies views(notes@)[j] != name@ by {
        assert(views(notes@)[j] == notes@[j]@);
    }
    false
}

/// The name of the new note titled `title` with identifier `id`.
pub open spec fn new_note_name(id: Seq<char>, title: Seq<char>) -> Seq<char> {
    id + " "@ + title + ".md"@
}

/// A new note is listed by its title: what follows the first space of its
/// name is the title with the extension `.md`.
pub proof fn law_new_note_listed_by_title(id: Seq<char>, title: Seq<char>)
    requires
        is_note_id(id),
    ensures
        note_key(new_note_name(id, title)) == title + ".md"@,
{
    reveal_strlit(" ");
    let n = new_note_name(id, title);
    assert(n[8] == ' ');
    assert forall|j: int| 0 <= j < 8 implies n[j] != ' ' by {
        assert(n[j] == id[j]);
        assert(is_lower_hex(id[j]));
    }
    first_index_unique(n, ' ', 8);
    assert(n.skip(9) =~= title + ".md"@);
}

/// The file to open for the answer `answer`: the note it names, or else a
/// new note with identifier `id`, in the directory `notes_dir`.
pub fn note_path(notes_dir: &str, notes: &Vec<String>, answer: &str, id: &str) -> (r: String)
    ensures
        r@ == notes_dir@ + "/"@ + (if views(notes@).contains(answer@) {
            answer@
        } else {
            new_note_name(id@, answer@)
        }),
{
    let name = if has_note(notes, answer) {
        owned(answer)
    } else {
        let a = concat(id, " ");
        let b = a.concat(answer);
        b.concat(".md")
    };
    let d = concat(notes_dir, "/");
    d.concat(name.as_str())
}

/// The file to open for the answer `answer`: the note it names, or else a
/// new note under a fresh identifier.
pub fn pick_note(notes_dir: &str, notes: &Vec<String>, answer: &str) -> (r: String)
    ensures
        views(notes@).contains(answer@) ==> r@ == notes_dir@ + "/"@ + answer@,
        !views(notes@).contains(answer@) ==> exists|id: Seq<char>|
            is_note_id(id) && r@ == notes_dir@ + "/"@ + new_note_name(id, answer@),
{
    if has_note(notes, answer) {
        note_path(notes_dir, notes, answer, "")
    } else {
        let id = get_id();
        note_path(notes_dir, notes, answer, id.as_str())
    }
}

} // verus!
