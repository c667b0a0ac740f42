//! The emoji picker: what it lists, how it counts what was picked, and how
//! it rebuilds its list from a backup and a set of renames.

use vstd::prelude::*;

use crate::paths::{join, join_path};
use crate::sort::{lemma_bag_distinct, lemma_bag_elem, sort_by_rank, Ranked};
use crate::strmap::{lists, StrMap};
use crate::text::{
    before_first, before_first_char, concat, decimal, decimal_string, first_index_unique,
    lemma_first_index, lex_le,
    lemma_lex_total, lemma_lex_trans, split_char, split_once, split_once_spec, split_spec, trim_of,
    trimmed, views,
};

verus! {

/// The emoji list and what is kept with it.
pub struct Emojis {
    /// The listed emojis with their descriptions.
    pub current: StrMap<String>,
    /// The descriptions read from emoji tables.
    pub backup: StrMap<String>,
    /// Descriptions that replace those of the backup.
    pub renames: StrMap<String>,
    /// How many times each emoji was picked.
    pub most_used: StrMap<u16>,
}

/// How many times `e` was picked, by the counts `m`.
pub open spec fn uses_of(m: Map<Seq<char>, u16>, e: Seq<char>) -> u16 {
    if m.contains_key(e) {
        m[e]
    } else {
        0
    }
}

/// The line shown for the emoji `e` with description `d`.
pub open spec fn line(e: Seq<char>, d: Seq<char>) -> Seq<char> {
    e + ": "@ + d
}

/// The lines offered list each emoji as `emoji: description`, every emoji
/// of the list once, and an emoji comes before another only if it was
/// picked at least as many times, counted as numbers (never picked counts
/// as none); picked as many times, its description comes no later.
pub proof fn law_listing_order(
    ks: Seq<Seq<char>>,
    lines: Seq<Seq<char>>,
    cur: Map<Seq<char>, Seq<char>>,
    mu: Map<Seq<char>, u16>,
)
    requires
        listing(ks, lines, cur, mu),
    ensures
        forall|i: int|
            0 <= i < ks.len() ==> cur.contains_key(#[trigger] ks[i]) && lines[i] == ks[i]
                + ": "@ + cur[ks[i]],
        forall|k: Seq<char>| cur.contains_key(k) ==> #[trigger] ks.contains(k),
        forall|i: int, j: int|
            0 <= i < j < ks.len() ==> {
                let ci: int = if mu.contains_key(ks[i]) {
                    mu[ks[i]] as int
                } else {
                    0
                };
                let cj: int = if mu.contains_key(ks[j]) {
                    mu[ks[j]] as int
                } else {
                    0
                };
                &&& ci >= cj
                &&& ci == cj ==> lex_le(cur[#[trigger] ks[i]], cur[#[trigger] ks[j]])
            },
{
    assert forall|i: int| 0 <= i < ks.len() implies cur.contains_key(#[trigger] ks[i]) && lines[i]
        == ks[i] + ": "@ + cur[ks[i]] by {
        assert(cur.contains_key(ks[i]));
        assert(lines[i] == line(ks[i], cur[ks[i]]));
    }
    assert forall|k: Seq<char>| cur.contains_key(k) implies #[trigger] ks.contains(k) by {
        assert(cur.contains_key(k));
    }
    assert forall|i: int, j: int| 0 <= i < j < ks.len() implies {
        let ci: int = if mu.contains_key(ks[i]) {
            mu[ks[i]] as int
        } else {
            0
        };
        let cj: int = if mu.contains_key(ks[j]) {
            mu[ks[j]] as int
        } else {
            0
        };
        &&& ci >= cj
        &&& ci == cj ==> lex_le(cur[#[trigger] ks[i]], cur[#[trigger] ks[j]])
    } by {
        assert(listed_before(
            uses_of(mu, ks[i]),
            cur[ks[i]],
            uses_of(mu, ks[j]),
            cur[ks[j]],
        ));
    }
}

/// Counting a pick adds one to the emoji's count, starting from none when
/// it was never picked, and leaves every other count as it was.
pub proof fn law_count_goes_up_by_one(mu: Map<Seq<char>, u16>, e: Seq<char>)
    requires
        uses_of(mu, e) < u16::MAX,
    ensures
        mu.insert(e, (uses_of(mu, e) + 1) as u16)[e] == (if mu.contains_key(e) {
            mu[e] as int
        } else {
            0
        }) + 1,
        forall|k: Seq<char>|
            k != e ==> (#[trigger] mu.insert(e, (uses_of(mu, e) + 1) as u16).contains_key(k)
                <==> mu.contains_key(k)),
        forall|k: Seq<char>|
            k != e && mu.contains_key(k) ==> #[trigger] mu.insert(e, (uses_of(mu, e) + 1) as u16)[k]
                == mu[k],
{
}

/// A line `k:v` of an emoji table, where `k` holds no colon, gives the
/// emoji `k` with the description `v` without surrounding white space; a
/// line without a colon gives nothing.
pub proof fn law_table_line(k: Seq<char>, v: Seq<char>, other: Seq<char>)
    requires
        !k.contains(':'),
        !other.contains(':'),
    ensures
        parsed_line(k + seq![':'] + v) == Some((k, trimmed(v))),
        parsed_line(other) is None,
{
    let l = k + seq![':'] + v;
    assert(l[k.len() as int] == ':');
    assert forall|j: int| 0 <= j < k.len() implies l[j] != ':' by {
        assert(l[j] == k[j]);
    }
    first_index_unique(l, ':', k.len() as int);
    assert(l.take(k.len() as int) =~= k);
    assert(l.skip(k.len() as int + 1) =~= v);
    lemma_first_index(other, ':');
}

/// Reading one more line `k:v` of a table, where `k` holds no colon, sets
/// `k` to `v` without surrounding white space; a line without a colon
/// changes nothing.
pub proof fn law_table_lines_set_pairs(
    m: Map<Seq<char>, Seq<char>>,
    lines: Seq<Seq<char>>,
    k: Seq<char>,
    v: Seq<char>,
    other: Seq<char>,
)
    requires
        !k.contains(':'),
        !other.contains(':'),
    ensures
        with_lines(m, lines.push(k + seq![':'] + v)) == with_lines(m, lines).insert(k, trimmed(v)),
        with_lines(m, lines.push(other)) == with_lines(m, lines),
{
    law_table_line(k, v, other);
    assert(lines.push(k + seq![':'] + v).drop_last() =~= lines);
    assert(lines.push(other).drop_last() =~= lines);
}

/// Picking the line offered for an emoji counts that emoji: what comes
/// before the first colon of the line is the emoji, when the emoji holds
/// no colon.
pub proof fn law_picked_line_names_emoji(e: Seq<char>, d: Seq<char>)
    requires
        !e.contains(':'),
    ensures
        before_first(line(e, d), ':') == e,
{
    reveal_strlit(": ");
    let l = line(e, d);
    assert(l[e.len() as int] == ':');
    assert forall|j: int| 0 <= j < e.len() implies l[j] != ':' by {
        assert(l[j] == e[j]);
    }
    first_index_unique(l, ':', e.len() as int);
    assert(l.take(e.len() as int) =~= e);
}

/// Whether an emoji picked `u1` times, described by `d1`, is listed no
/// later than one picked `u2` times, described by `d2`: the more picked
/// first, then by description.
pub open spec fn listed_before(u1: u16, d1: Seq<char>, u2: u16, d2: Seq<char>) -> bool {
    u1 > u2 || (u1 == u2 && lex_le(d1, d2))
}

/// The pair that a line `k: v` of an emoji table gives: the key before
/// the first colon, the rest without surrounding white space.
pub open spec fn parsed_line(line: Seq<char>) -> Option<(Seq<char>, Seq<char>)> {
    match split_once_spec(line, ':') {
        Some(p) => Some((p.0, trimmed(p.1))),
        None => None,
    }
}

/// `m` with the pairs of `lines` set in turn; lines without a colon are
/// passed over.
pub open spec fn with_lines(m: Map<Seq<char>, Seq<char>>, lines: Seq<Seq<char>>) -> Map<
    Seq<char>,
    Seq<char>,
>
    decreases lines.len(),
{
    if lines.len() == 0 {
        m
    } else {
        let m1 = with_lines(m, lines.drop_last());
        match parsed_line(lines.last()) {
            Some(p) => m1.insert(p.0, p.1),
            None => m1,
        }
    }
}

/// `lines` lists the emojis `ks` of `cur` in order, each with its
/// description, every emoji of `cur` among them, the most picked by `mu`
/// first, then in the order of the descriptions.
pub open spec fn listing(
    ks: Seq<Seq<char>>,
    lines: Seq<Seq<char>>,
    cur: Map<Seq<char>, Seq<char>>,
    mu: Map<Seq<char>, u16>,
) -> bool {
    &&& ks.len() == lines.len()
    &&& forall|i: int|
        0 <= i < ks.len() ==> #[trigger] cur.contains_key(ks[i]) && lines[i] == line(ks[i], cur[ks[i]])
    &&& forall|k: Seq<char>| #[trigger] cur.contains_key(k) ==> ks.contains(k)
    &&& forall|i: int, j: int|
        0 <= i < j < ks.len() ==> listed_before(
            uses_of(mu, ks[i]),
            cur[ks[i]],
            uses_of(mu, ks[j]),
            cur[ks[j]],
        )
}

/// The views of emoji counts.
pub open spec fn count_views(r: Seq<(String, u16)>) -> Seq<(Seq<char>, u16)> {
    r.map_values(|p: (String, u16)| (p.0@, p.1))
}

/// `top` holds the ten most picked emojis by the counts `mu`, each with
/// its count, the most picked first; fewer when fewer were ever picked.
pub open spec fn top_counts(top: Seq<(Seq<char>, u16)>, mu: Map<Seq<char>, u16>) -> bool {
    &&& top.len() == if mu.len() < 10 {
        mu.len()
    } else {
        10
    }
    &&& forall|i: int|
        0 <= i < top.len() ==> #[trigger] mu.contains_key(top[i].0) && mu[top[i].0] == top[i].1
    &&& forall|i: int, j: int| 0 <= i < j < top.len() ==> top[i].0 != top[j].0
    &&& forall|i: int, j: int| 0 <= i < j < top.len() ==> top[i].1 >= top[j].1
    &&& forall|k: Seq<char>|
        #[trigger] mu.contains_key(k) && !(exists|i: int| 0 <= i < top.len() && top[i].0 == k)
            ==> forall|i: int| 0 <= i < top.len() ==> mu[k] <= top[i].1
}

/// An emoji with its description and count, ordered as listed.
struct Row {
    emoji: String,
    desc: String,
    uses: u16,
}

impl View for Row {
    type V = (Seq<char>, Seq<char>, u16);

    closed spec fn view(&self) -> (Seq<char>, Seq<char>, u16) {
        (self.emoji@, self.desc@, self.uses)
    }
}

impl Ranked for Row {
    closed spec fn rank_le(&self, other: &Self) -> bool {
        listed_before(self.uses, self.desc@, other.uses, other.desc@)
    }

    proof fn lemma_rank_total(a: &Self, b: &Self) {
        lemma_lex_total(a.desc@, b.desc@);
    }

    proof fn lemma_rank_trans(a: &Self, b: &Self, c: &Self) {
        if a.uses == b.uses && b.uses == c.uses {
            lemma_lex_trans(a.desc@, b.desc@, c.desc@);
        }
    }

    fn ranks_before(&self, other: &Self) -> (r: bool) {
        self.uses > other.uses || (self.uses == other.uses && crate::text::lex_le_exec(
            self.desc.as_str(),
            other.desc.as_str(),
        ))
    }
}

/// An emoji with its count, ordered by count, the larger first.
struct Count {
    emoji: String,
    uses: u16,
}

impl View for Count {
    type V = (Seq<char>, u16);

    closed spec fn view(&self) -> (Seq<char>, u16) {
        (self.emoji@, self.uses)
    }
}

impl Ranked for Count {
    closed spec fn rank_le(&self, other: &Self) -> bool {
        self.uses >= other.uses
    }

    proof fn lemma_rank_total(a: &Self, b: &Self) {
    }

    proof fn lemma_rank_trans(a: &Self, b: &Self, c: &Self) {
    }

    fn ranks_before(&self, other: &Self) -> (r: bool) {
        self.uses >= other.uses
    }
}

impl Emojis {
    /// How many times `emoji` was picked.
    pub fn uses(&self, emoji: &str) -> (r: u16)
        ensures
            r == uses_of(self.most_used@, emoji@),
    {
        match self.most_used.get(emoji) {
            None => 0,
            Some(n) => *n,
        }
    }

    /// The lines to offer, one per listed emoji, as `emoji: description`:
    /// the most picked first, then in the order of the descriptions.
    pub fn dmenu(&self) -> (r: Vec<String>)
        ensures
            r@.len() == self.current@.len(),
            exists|ks: Seq<Seq<char>>| #[trigger] listing(ks, views(r@), self.current@, self.most_used@),
    {
        let entries = self.current.entries();
        let ghost cur = self.current@;
        let ghost mu = self.most_used@;
        let n = entries.len();
        let mut rows: Vec<Row> = Vec::new();
        let mut i: usize = 0;
        while i < n
            invariant
                n == entries@.len(),
                i <= n,
                rows@.len() == i,
                cur == self.current@,
                mu == self.most_used@,
                forall|j: int|
                    0 <= j < i ==> #[trigger] rows@[j]@ == (
                        entries@[j].0@,
                        entries@[j].1@,
                        uses_of(mu, entries@[j].0@),
                    ),
            decreases n - i,
        {
            let e = entries[i].0.clone();
            let d = entries[i].1.clone();
            let u = self.uses(e.as_str());
            rows.push(Row { emoji: e, desc: d, uses: u });
            i = i + 1;
        }
        let ghost unsorted = rows@;
        let sorted = sort_by_rank(rows);
        let mut out: Vec<String> = Vec::new();
        let mut p: usize = 0;
        while p < n
            invariant
                n == sorted@.len(),
                p <= n,
                out@.len() == p,
                forall|j: int|
                    0 <= j < p ==> #[trigger] out@[j]@ == line(sorted@[j].emoji@, sorted@[j].desc@),
            decreases n - p,
        {
            let head = concat(sorted[p].emoji.as_str(), ": ");
            let l = head.concat(sorted[p].desc.as_str());
            out.push(l);
            p = p + 1;
        }
        proof {
            let ks = sorted@.map_values(|r: Row| r.emoji@);
            assert forall|q: int| 0 <= q < n implies #[trigger] cur.contains_key(ks[q])
                && sorted@[q].desc@ == cur[ks[q]] && sorted@[q].uses == uses_of(mu, ks[q]) by {
                lemma_bag_elem(unsorted, sorted@, q);
                let j = choose|j: int| 0 <= j < unsorted.len() && unsorted[j]@ == sorted@[q]@;
                assert(unsorted[j]@ == (entries@[j].0@, entries@[j].1@, uses_of(mu, entries@[j].0@)));
                assert(cur.contains_key(entries@[j].0@));
            }
            assert forall|k: Seq<char>| #[trigger] cur.contains_key(k) implies ks.contains(k) by {
                let j = choose|j: int| 0 <= j < entries@.len() && entries@[j].0@ == k;
                assert(unsorted[j]@ == (entries@[j].0@, entries@[j].1@, uses_of(mu, entries@[j].0@)));
                lemma_bag_elem(sorted@, unsorted, j);
                let q = choose|q: int| 0 <= q < sorted@.len() && sorted@[q]@ == unsorted[j]@;
                assert(ks[q] == k);
            }
            assert forall|a: int, b: int| 0 <= a < b < ks.len() implies listed_before(
                uses_of(mu, ks[a]),
                cur[ks[a]],
                uses_of(mu, ks[b]),
                cur[ks[b]],
            ) by {
                assert(sorted@[a].rank_le(&sorted@[b]));
                assert(cur.contains_key(ks[a]));
                assert(cur.contains_key(ks[b]));
            }
            assert forall|q: int| 0 <= q < ks.len() implies #[trigger] cur.contains_key(ks[q])
                && views(out@)[q] == line(ks[q], cur[ks[q]]) by {
                assert(cur.contains_key(ks[q]));
            }
            assert(listing(ks, views(out@), cur, mu));
        }
        out
    }

    /// Counts one more pick of the emoji that the answer `answer` names,
    /// what comes before its first colon, and returns that emoji.
    pub fn record_choice(&mut self, answer: &str) -> (r: String)
        requires
            uses_of(old(self).most_used@, before_first(answer@, ':')) < u16::MAX,
        ensures
            r@ == before_first(answer@, ':'),
            final(self).most_used@ == old(self).most_used@.insert(
                r@,
                (uses_of(old(self).most_used@, r@) + 1) as u16,
            ),
            final(self).current@ == old(self).current@,
            final(self).backup@ == old(self).backup@,
            final(self).renames@ == old(self).renames@,
    {
        let choice = before_first_char(answer, ':');
        let n = self.uses(choice.as_str());
        let key = choice.clone();
        self.most_used.insert(key, n + 1);
        choice
    }

    /// Rebuilds the list: the backup, with the renames taking precedence.
    pub fn refresh(&mut self)
        ensures
            final(self).current@ == old(self).backup@.union_prefer_right(old(self).renames@),
            final(self).backup@ == old(self).backup@,
            final(self).renames@ == old(self).renames@,
            final(self).most_used@ == old(self).most_used@,
    {
        let mut result = self.backup.duplicate();
        let entries = self.renames.entries();
        let ghost b = self.backup@;
        let ghost rn = self.renames@;
        let n = entries.len();
        let mut i: usize = 0;
        while i < n
            invariant
                n == entries@.len(),
                i <= n,
                b == self.backup@,
                rn == self.renames@,
                lists(entries@, rn),
                forall|k: Seq<char>|
                    #[trigger] result@.contains_key(k) <==> (b.contains_key(k) || exists|j: int|
                        0 <= j < i && entries@[j].0@ == k),
                forall|j: int| 0 <= j < i ==> #[trigger] result@[entries@[j].0@] == entries@[j].1@,
                forall|k: Seq<char>|
                    b.contains_key(k) && !(exists|j: int| 0 <= j < i && entries@[j].0@ == k)
                        ==> #[trigger] result@[k] == b[k],
            decreases n - i,
        {
            let k = entries[i].0.clone();
            let v = entries[i].1.clone();
            let ghost before = result@;
            result.insert(k, v);
            assert forall|k2: Seq<char>|
                #[trigger] result@.contains_key(k2) <==> (b.contains_key(k2) || exists|j: int|
                    0 <= j < i + 1 && entries@[j].0@ == k2) by {
                if k2 == entries@[i as int].0@ {
                    assert(exists|j: int| 0 <= j < i + 1 && entries@[j].0@ == k2);
                } else if exists|j: int| 0 <= j < i + 1 && entries@[j].0@ == k2 {
                    let j = choose|j: int| 0 <= j < i + 1 && entries@[j].0@ == k2;
                    assert(j < i);
                }
            }
            assert forall|j: int| 0 <= j < i + 1 implies #[trigger] result@[entries@[j].0@]
                == entries@[j].1@ by {
                if j < i {
                    assert(entries@[j].0@ != entries@[i as int].0@);
                }
            }
            assert forall|k2: Seq<char>|
                b.contains_key(k2) && !(exists|j: int| 0 <= j < i + 1 && entries@[j].0@ == k2)
                    implies #[trigger] result@[k2] == b[k2] by {
                assert(entries@[i as int].0@ != k2);
                assert(!(exists|j: int| 0 <= j < i && entries@[j].0@ == k2));
            }
            i = i + 1;
        }
        proof {
            let want = b.union_prefer_right(rn);
            assert forall|k: Seq<char>| #[trigger] result@.contains_key(k) <==> want.contains_key(k) by {
                if rn.contains_key(k) {
                    let j = choose|j: int| 0 <= j < entries@.len() && entries@[j].0@ == k;
                    assert(result@.contains_key(entries@[j].0@));
                }
                if exists|j: int| 0 <= j < n && entries@[j].0@ == k {
                    let j = choose|j: int| 0 <= j < n && entries@[j].0@ == k;
                    assert(rn.contains_key(entries@[j].0@));
                }
            }
            assert forall|k: Seq<char>| #[trigger] result@.contains_key(k) implies result@[k] == want[k] by {
                if rn.contains_key(k) {
                    let j = choose|j: int| 0 <= j < entries@.len() && entries@[j].0@ == k;
                    assert(result@[entries@[j].0@] == entries@[j].1@);
                    assert(rn.contains_key(entries@[j].0@));
                } else {
                    if exists|j: int| 0 <= j < n && entries@[j].0@ == k {
                        let j = choose|j: int| 0 <= j < n && entries@[j].0@ == k;
                        assert(rn.contains_key(entries@[j].0@));
                    }
                }
            }
            assert(result@ =~= want);
        }
        self.current = result;
    }

    /// Adds the pairs that the lines `k: v` of an emoji table give to the
    /// backup, then rebuilds the list.
    pub fn update_from_txt(&mut self, lines: &Vec<String>)
        ensures
            final(self).backup@ == with_lines(old(self).backup@, views(lines@)),
            final(self).current@ == with_lines(old(self).backup@, views(lines@)).union_prefer_right(
                old(self).renames@,
            ),
            final(self).renames@ == old(self).renames@,
            final(self).most_used@ == old(self).most_used@,
    {
        let n = lines.len();
        let mut i: usize = 0;
        let ghost b0 = self.backup@;
        while i < n
            invariant
                n == lines@.len(),
                i <= n,
                self.backup@ == with_lines(b0, views(lines@.take(i as int))),
                self.renames@ == old(self).renames@,
                self.most_used@ == old(self).most_used@,
            decreases n - i,
        {
            assert(views(lines@.take(i + 1)).drop_last() =~= views(lines@.take(i as int)));
            assert(views(lines@.take(i + 1)).last() == lines@[i as int]@);
            match split_once(lines[i].as_str(), ':') {
                None => {},
                Some(p) => {
                    let v = trim_of(p.1.as_str());
                    self.backup.insert(p.0, v);
                },
            }
            i = i + 1;
        }
        assert(lines@.take(n as int) =~= lines@);
        self.refresh();
    }

    /// The ten most picked emojis with their counts, the most picked
    /// first; fewer when fewer were ever picked.
    pub fn most_used(&self) -> (r: Vec<(String, u16)>)
        ensures
            top_counts(count_views(r@), self.most_used@),
    {
        let entries = self.most_used.entries();
        let ghost mu = self.most_used@;
        let n = entries.len();
        let mut rows: Vec<Count> = Vec::new();
        let mut i: usize = 0;
        while i < n
            invariant
                n == entries@.len(),
                i <= n,
                rows@.len() == i,
                forall|j: int|
                    0 <= j < i ==> #[trigger] rows@[j]@ == (entries@[j].0@, entries@[j].1),
            decreases n - i,
        {
            rows.push(Count { emoji: entries[i].0.clone(), uses: entries[i].1 });
            i = i + 1;
        }
        let ghost unsorted = rows@;
        proof {
            let um = unsorted.map_values(|c: Count| c@);
            assert forall|a: int, b: int| 0 <= a < um.len() && 0 <= b < um.len() && a != b
                implies um[a] != um[b] by {
                assert(um[a] == unsorted[a]@);
                assert(um[b] == unsorted[b]@);
                if a < b {
                    assert(entries@[a].0@ != entries@[b].0@);
                } else {
                    assert(entries@[b].0@ != entries@[a].0@);
                }
            }
            assert(um.no_duplicates());
        }
        let sorted = sort_by_rank(rows);
        proof {
            lemma_bag_distinct(unsorted, sorted@);
        }
        let m: usize = if n < 10 {
            n
        } else {
            10
        };
        let mut out: Vec<(String, u16)> = Vec::new();
        let mut p: usize = 0;
        while p < m
            invariant
                n == sorted@.len(),
                m <= n,
                p <= m,
                out@.len() == p,
                forall|j: int|
                    0 <= j < p ==> #[trigger] out@[j].0@ == sorted@[j].emoji@ && out@[j].1
                        == sorted@[j].uses,
            decreases m - p,
        {
            out.push((sorted[p].emoji.clone(), sorted[p].uses));
            p = p + 1;
        }
        proof {
            let sm = sorted@.map_values(|c: Count| c@);
            assert forall|q: int| 0 <= q < n implies #[trigger] mu.contains_key(sorted@[q].emoji@)
                && mu[sorted@[q].emoji@] == sorted@[q].uses by {
                lemma_bag_elem(unsorted, sorted@, q);
                let j = choose|j: int| 0 <= j < unsorted.len() && unsorted[j]@ == sorted@[q]@;
                assert(unsorted[j]@ == (entries@[j].0@, entries@[j].1));
                assert(mu.contains_key(entries@[j].0@));
            }
            assert forall|a: int, b: int| 0 <= a < b < out@.len() implies out@[a].0@ != out@[b].0@ by {
                if sorted@[a].emoji@ == sorted@[b].emoji@ {
                    assert(mu.contains_key(sorted@[a].emoji@));
                    assert(mu.contains_key(sorted@[b].emoji@));
                    assert(sorted@[a]@ == sorted@[b]@);
                    assert(sm[a] == sorted@[a]@);
                    assert(sm[b] == sorted@[b]@);
                }
            }
            assert forall|i2: int| 0 <= i2 < out@.len() implies #[trigger] mu.contains_key(out@[i2].0@)
                && mu[out@[i2].0@] == out@[i2].1 by {
                assert(mu.contains_key(sorted@[i2].emoji@));
            }
            assert forall|k: Seq<char>|
                #[trigger] mu.contains_key(k) && !(exists|i2: int| 0 <= i2 < out@.len() && out@[i2].0@ == k)
                    implies forall|i2: int| 0 <= i2 < out@.len() ==> mu[k] <= out@[i2].1 by {
                let j = choose|j: int| 0 <= j < entries@.len() && entries@[j].0@ == k;
                assert(unsorted[j]@ == (entries@[j].0@, entries@[j].1));
                lemma_bag_elem(sorted@, unsorted, j);
                let q = choose|q: int| 0 <= q < sorted@.len() && sorted@[q]@ == unsorted[j]@;
                if q < m {
                    assert(out@[q].0@ == k);
                }
                assert forall|i2: int| 0 <= i2 < out@.len() implies mu[k] <= out@[i2].1 by {
                    assert(sorted@[i2].rank_le(&sorted@[q]));
                    assert(mu[entries@[j].0@] == entries@[j].1);
                }
            }
            assert forall|a: int, b: int| 0 <= a < b < out@.len() implies out@[a].1 >= out@[b].1 by {
                assert(sorted@[a].rank_le(&sorted@[b]));
            }
            assert(mu.len() == n);
            let cv = count_views(out@);
            assert forall|i2: int| 0 <= i2 < cv.len() implies cv[i2] == (out@[i2].0@, out@[i2].1) by {}
            assert forall|k: Seq<char>|
                #[trigger] mu.contains_key(k) && !(exists|i2: int| 0 <= i2 < cv.len() && cv[i2].0 == k)
                    implies forall|i2: int| 0 <= i2 < cv.len() ==> mu[k] <= cv[i2].1 by {
                assert(!(exists|i2: int| 0 <= i2 < out@.len() && out@[i2].0@ == k)) by {
                    if exists|i2: int| 0 <= i2 < out@.len() && out@[i2].0@ == k {
                        let i2 = choose|i2: int| 0 <= i2 < out@.len() && out@[i2].0@ == k;
                        assert(cv[i2].0 == k);
                    }
                }
            }
            assert(top_counts(cv, mu));
        }
        out
    }
}

/// The file that keeps the emoji list, under the configuration directory
/// `conf`, as a path built from its components.
pub fn get_path(conf: &str) -> (r: String)
    ensures
        r@ == join(join(conf@, "local"@), "emoji.json"@),
{
    let d = join_path(conf, "local");
    join_path(d.as_str(), "emoji.json")
}

/// The lines that the picker offers, as `Emojis::dmenu` gives them.
pub fn dmenu(emojis: &Emojis) -> (r: Vec<String>)
    ensures
        r@.len() == emojis.current@.len(),
        exists|ks: Seq<Seq<char>>| #[trigger] listing(ks, views(r@), emojis.current@, emojis.most_used@),
{
    emojis.dmenu()
}

/// Rebuilds the list of `emojis`, as `Emojis::refresh` does.
pub fn refresh(emojis: &mut Emojis)
    ensures
        final(emojis).current@ == old(emojis).backup@.union_prefer_right(old(emojis).renames@),
        final(emojis).backup@ == old(emojis).backup@,
        final(emojis).renames@ == old(emojis).renames@,
        final(emojis).most_used@ == old(emojis).most_used@,
{
    emojis.refresh()
}

/// The report of the most picked emojis: a line `emoji: count` for each
/// of those that `Emojis::most_used` gives, in its order.
pub fn most_used(emojis: &Emojis) -> (r: Vec<String>)
    ensures
        exists|top: Seq<(Seq<char>, u16)>|
            #[trigger] top_counts(top, emojis.most_used@) && top.len() == r@.len() && forall|i: int|
                0 <= i < top.len() ==> #[trigger] r@[i]@ == line(top[i].0, decimal(top[i].1 as nat)),
{
    let pairs = emojis.most_used();
    let n = pairs.len();
    let mut out: Vec<String> = Vec::new();
    let mut i: usize = 0;
    while i < n
        invariant
            n == pairs@.len(),
            i <= n,
            out@.len() == i,
            forall|j: int|
                0 <= j < i ==> #[trigger] out@[j]@ == line(pairs@[j].0@, decimal(pairs@[j].1 as nat)),
        decreases n - i,
    {
        let head = concat(pairs[i].0.as_str(), ": ");
        let count = decimal_string(pairs[i].1 as u64);
        out.push(head.concat(count.as_str()));
        i = i + 1;
    }
    let ghost top = count_views(pairs@);
    assert(top_counts(top, emojis.most_used@));
    out
}

/// Adds to the backup of `emojis` the pairs that the lines of the emoji
/// table `source` give, then rebuilds the list.
pub fn update(emojis: &mut Emojis, source: &str)
    ensures
        final(emojis).backup@ == with_lines(old(emojis).backup@, split_spec(source@, '\n')),
        final(emojis).current@ == with_lines(old(emojis).backup@, split_spec(source@, '\n')).union_prefer_right(
            old(emojis).renames@,
        ),
        final(emojis).renames@ == old(emojis).renames@,
        final(emojis).most_used@ == old(emojis).most_used@,
{
    let lines = split_char(source, '\n');
    emojis.update_from_txt(&lines);
}

} // verus!
