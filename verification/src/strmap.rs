//! A map keyed by strings, kept as a list of distinct keys.

use vstd::prelude::*;

use crate::sort::{lemma_bag_distinct, lemma_bag_elem, sort_by_rank, Ranked};
use crate::text::{lemma_strictly_sorted_unique, lex_le, str_eq, views};

verus! {

/// Values that can be copied with their view kept.
pub trait Entry: View + Sized {
    fn duplicate(&self) -> (r: Self)
        ensures
            r@ == self@,
    ;
}

impl Entry for String {
    fn duplicate(&self) -> (r: String) {
        self.clone()
    }
}

impl Entry for u16 {
    fn duplicate(&self) -> (r: u16) {
        *self
    }
}

/// `s` lists the entries of `m`, each key once.
pub open spec fn lists<V: View>(s: Seq<(String, V)>, m: Map<Seq<char>, V::V>) -> bool {
    &&& forall|i: int, j: int| 0 <= i < j < s.len() ==> s[i].0@ != s[j].0@
    &&& forall|i: int|
        0 <= i < s.len() ==> #[trigger] m.contains_key(s[i].0@) && m[s[i].0@] == s[i].1@
    &&& forall|k: Seq<char>|
        #[trigger] m.contains_key(k) ==> exists|i: int| 0 <= i < s.len() && s[i].0@ == k
}

/// `ks` holds the keys of `m`, each once, in lexicographic order.
pub open spec fn sorted_keys_of<V>(ks: Seq<Seq<char>>, m: Map<Seq<char>, V>) -> bool {
    &&& ks.no_duplicates()
    &&& forall|i: int| 0 <= i < ks.len() ==> #[trigger] m.contains_key(ks[i])
    &&& forall|k: Seq<char>| #[trigger] m.contains_key(k) ==> ks.contains(k)
    &&& forall|i: int, j: int| 0 <= i < j < ks.len() ==> lex_le(ks[i], ks[j])
}

/// The sorted list of the keys of a map is determined by the map: two
/// lists that both hold its keys, each once, in lexicographic order, are
/// the same.
pub proof fn law_sorted_keys_determined<V>(a: Seq<Seq<char>>, b: Seq<Seq<char>>, m: Map<Seq<char>, V>)
    requires
        sorted_keys_of(a, m),
        sorted_keys_of(b, m),
    ensures
        a == b,
{
    assert forall|x: Seq<char>| a.to_set().contains(x) implies b.to_set().contains(x) by {
        let i = choose|i: int| 0 <= i < a.len() && a[i] == x;
        assert(m.contains_key(a[i]));
    }
    assert forall|x: Seq<char>| b.to_set().contains(x) implies a.to_set().contains(x) by {
        let i = choose|i: int| 0 <= i < b.len() && b[i] == x;
        assert(m.contains_key(b[i]));
    }
    assert(a.to_set() =~= b.to_set());
    lemma_strictly_sorted_unique(a, b);
}

/// A finite map from strings to values.
pub struct StrMap<V: View> {
    entries: Vec<(String, V)>,
    model: Ghost<Map<Seq<char>, V::V>>,
}

impl<V: View> View for StrMap<V> {
    type V = Map<Seq<char>, V::V>;

    closed spec fn view(&self) -> Map<Seq<char>, V::V> {
        self.model@
    }
}

impl<V: View> StrMap<V> {
    #[verifier::type_invariant]
    closed spec fn inv(&self) -> bool {
        &&& lists(self.entries@, self.model@)
        &&& self.model@.dom().finite()
        &&& self.model@.len() == self.entries@.len()
    }

    /// The empty map.
    pub fn new() -> (r: Self)
        ensures
            r@ == Map::<Seq<char>, V::V>::empty(),
    {
        let r = StrMap { entries: Vec::new(), model: Ghost(Map::empty()) };
        assert(r.model@.dom() =~= Set::empty());
        r
    }

    /// The number of keys.
    pub fn len(&self) -> (r: usize)
        ensures
            r == self@.len(),
            self@.dom().finite(),
    {
        proof {
            use_type_invariant(self);
        }
        self.entries.len()
    }

    /// Position of `k` in the list of entries.
    fn position(&self, k: &str) -> (r: Option<usize>)
        ensures
            r is None <==> !self@.contains_key(k@),
            r matches Some(i) ==> i < self.entries@.len() && self.entries@[i as int].0@ == k@,
    {
        proof {
            use_type_invariant(self);
        }
        let n = self.entries.len();
        let mut i: usize = 0;
        while i < n
            invariant
                n == self.entries@.len(),
                i <= n,
                lists(self.entries@, self.model@),
                forall|j: int| 0 <= j < i ==> self.entries@[j].0@ != k@,
            decreases n - i,
        {
            if str_eq(self.entries[i].0.as_str(), k) {
                assert(self.model@.contains_key(self.entries@[i as int].0@));
                return Some(i);
            }
            i = i + 1;
        }
        None
    }

    /// Whether `k` is a key.
    pub fn contains_key(&self, k: &str) -> (r: bool)
        ensures
            r == self@.contains_key(k@),
    {
        self.position(k).is_some()
    }

    /// The value of `k`, if `k` is a key.
    pub fn get(&self, k: &str) -> (r: Option<&V>)
        ensures
            r is None <==> !self@.contains_key(k@),
            r matches Some(v) ==> self@.contains_key(k@) && v@ == self@[k@],
    {
        proof {
            use_type_invariant(self);
        }
        match self.position(k) {
            None => None,
            Some(i) => Some(&self.entries[i].1),
        }
    }

    /// The entries, each key once, in an order that this map chooses.
    pub fn entries(&self) -> (r: &Vec<(String, V)>)
        ensures
            lists(r@, self@),
            r@.len() == self@.len(),
            self@.dom().finite(),
    {
        proof {
            use_type_invariant(self);
        }
        &self.entries
    }

    /// The keys, in lexicographic order.
    pub fn sorted_keys(&self) -> (r: Vec<String>)
        ensures
            sorted_keys_of(views(r@), self@),
            r@.len() == self@.len(),
    {
        proof {
            use_type_invariant(self);
        }
        let n = self.entries.len();
        let mut keys: Vec<String> = Vec::new();
        let mut i: usize = 0;
        while i < n
            invariant
                n == self.entries@.len(),
                i <= n,
                keys@.len() == i,
                forall|j: int| 0 <= j < i ==> #[trigger] keys@[j]@ == self.entries@[j].0@,
            decreases n - i,
        {
            keys.push(self.entries[i].0.clone());
            i = i + 1;
        }
        let ghost unsorted = keys@;
        let ghost m = self.model@;
        let ghost src = self.entries@;
        let sorted = sort_by_rank(keys);
        proof {
            let ks = views(sorted@);
            assert(unsorted.map_values(|t: String| t@) =~= views(unsorted));
            assert(sorted@.map_values(|t: String| t@) =~= ks);
            assert forall|a: int, b: int| 0 <= a < b < unsorted.len() implies views(unsorted)[a]
                != views(unsorted)[b] by {
                assert(unsorted[a]@ == src[a].0@);
                assert(unsorted[b]@ == src[b].0@);
            }
            assert(views(unsorted).no_duplicates());
            lemma_bag_distinct(unsorted, sorted@);
            assert forall|q: int| 0 <= q < ks.len() implies #[trigger] m.contains_key(ks[q]) by {
                lemma_bag_elem(unsorted, sorted@, q);
                let j = choose|j: int| 0 <= j < unsorted.len() && unsorted[j]@ == sorted@[q]@;
                assert(unsorted[j]@ == src[j].0@);
                assert(m.contains_key(src[j].0@));
            }
            assert forall|k: Seq<char>| #[trigger] m.contains_key(k) implies ks.contains(k) by {
                let j = choose|j: int| 0 <= j < src.len() && src[j].0@ == k;
                assert(unsorted[j]@ == k);
                lemma_bag_elem(sorted@, unsorted, j);
                let q = choose|q: int| 0 <= q < sorted@.len() && sorted@[q]@ == unsorted[j]@;
                assert(ks[q] == k);
            }
            assert forall|a: int, b: int| 0 <= a < b < ks.len() implies lex_le(ks[a], ks[b]) by {
                assert(sorted@[a].rank_le(&sorted@[b]));
            }
        }
        sorted
    }

    /// Sets the value of `k` to `v`.
    pub fn insert(&mut self, k: String, v: V)
        ensures
            final(self)@ == old(self)@.insert(k@, v@),
    {
        proof {
            use_type_invariant(&*self);
        }
        let ghost m = self.model@;
        let ghost kv = k@;
        let ghost vv = v@;
        let ghost new_m = m.insert(kv, vv);
        let pos = self.position(k.as_str());
        let mut whole = StrMap::new();
        std::mem::swap(&mut whole, self);
        proof {
            use_type_invariant(&whole);
        }
        let StrMap { mut entries, model: _ } = whole;
        let ghost old_entries = entries@;
        match pos {
            Some(i) => {
                entries.set(i, (k, v));
                proof {
                    assert(new_m.dom() =~= m.dom());
                    assert forall|a: int, b: int| 0 <= a < b < entries@.len() implies entries@[a].0@ != entries@[b].0@ by {
                        if a != i && b != i {
                            assert(entries@[a] == old_entries[a]);
                            assert(entries@[b] == old_entries[b]);
                        } else if a == i {
                            assert(entries@[b] == old_entries[b]);
                        } else {
                            assert(entries@[a] == old_entries[a]);
                        }
                    }
                    assert forall|j: int| 0 <= j < entries@.len() implies #[trigger] new_m.contains_key(entries@[j].0@) && new_m[entries@[j].0@] == entries@[j].1@ by {
                        if j != i {
                            assert(entries@[j] == old_entries[j]);
                            assert(m.contains_key(old_entries[j].0@));
                        }
                    }
                    assert forall|key: Seq<char>| #[trigger] new_m.contains_key(key) implies exists|j: int|
                        0 <= j < entries@.len() && entries@[j].0@ == key by {
                        if key != kv {
                            let j = choose|j: int| 0 <= j < old_entries.len() && old_entries[j].0@ == key;
                            assert(entries@[j] == old_entries[j]);
                        } else {
                            assert(entries@[i as int].0@ == key);
                        }
                    }
                }
            },
            None => {
                entries.push((k, v));
                proof {
                    assert(!m.contains_key(kv));
                    assert(new_m.dom() =~= m.dom().insert(kv));
                    assert forall|a: int, b: int| 0 <= a < b < entries@.len() implies entries@[a].0@ != entries@[b].0@ by {
                        assert(entries@[a] == old_entries[a]);
                        if b < old_entries.len() {
                            assert(entries@[b] == old_entries[b]);
                        } else {
                            assert(m.contains_key(old_entries[a].0@));
                        }
                    }
                    assert forall|j: int| 0 <= j < entries@.len() implies #[trigger] new_m.contains_key(entries@[j].0@) && new_m[entries@[j].0@] == entries@[j].1@ by {
                        if j < old_entries.len() {
                            assert(entries@[j] == old_entries[j]);
                            assert(m.contains_key(old_entries[j].0@));
                        }
                    }
                    assert forall|key: Seq<char>| #[trigger] new_m.contains_key(key) implies exists|j: int|
                        0 <= j < entries@.len() && entries@[j].0@ == key by {
                        if key != kv {
                            let j = choose|j: int| 0 <= j < old_entries.len() && old_entries[j].0@ == key;
                            assert(entries@[j] == old_entries[j]);
                        } else {
                            assert(entries@[old_entries.len() as int].0@ == key);
                        }
                    }
                }
            },
        }
        *self = StrMap { entries, model: Ghost(new_m) };
    }
}

impl<V: Entry> StrMap<V> {
    /// A copy of the map.
    pub fn duplicate(&self) -> (r: Self)
        ensures
            r@ == self@,
    {
        proof {
            use_type_invariant(self);
        }
        let n = self.entries.len();
        let mut out: Vec<(String, V)> = Vec::new();
        let mut i: usize = 0;
        while i < n
            invariant
                n == self.entries@.len(),
                i <= n,
                out@.len() == i,
                forall|j: int| 0 <= j < i ==> out@[j].0@ == self.entries@[j].0@ && out@[j].1@ == self.entries@[j].1@,
            decreases n - i,
        {
            let k = self.entries[i].0.clone();
            let v = self.entries[i].1.duplicate();
            out.push((k, v));
            i = i + 1;
        }
        let ghost src = self.entries@;
        let ghost m = self.model@;
        assert forall|k: Seq<char>| #[trigger] m.contains_key(k) implies exists|j: int|
            0 <= j < out@.len() && out@[j].0@ == k by {
            let j = choose|j: int| 0 <= j < src.len() && src[j].0@ == k;
            assert(out@[j].0@ == k);
        }
        assert forall|j: int| 0 <= j < out@.len() implies #[trigger] m.contains_key(out@[j].0@) && m[out@[j].0@] == out@[j].1@ by {
            assert(m.contains_key(src[j].0@));
        }
        StrMap { entries: out, model: Ghost(self.model@) }
    }
}

} // verus!
