//! The command runner: it offers every program found in the directories
//! of the search path, each name once, in order.

use vstd::prelude::*;

use crate::paths::{opt_views, visible_names, visible_names_of};
use crate::sort::{sort_by_rank, sorted_by_rank, Ranked};
use crate::text::{
    lemma_lex_antisym, lemma_lex_trans, lemma_strictly_sorted_unique, lex_le, split_char,
    split_spec, str_eq, strictly_sorted, views,
};

verus! {

broadcast use vstd::seq_lib::group_to_multiset_ensures;

/// The directories of the search path `path_var`, as `split(':')` gives
/// them.
pub fn search_dirs(path_var: &str) -> (r: Vec<String>)
    ensures
        views(r@) == split_spec(path_var@, ':'),
{
    split_char(path_var, ':')
}

/// The programs among the entries of a directory, given as the text of
/// their paths (`None` where a path is not UTF-8): the file names that do
/// not start with a dot, in order.
pub fn read_path(paths: &Vec<Option<String>>) -> (r: Vec<String>)
    ensures
        views(r@) == visible_names(opt_views(paths@)),
{
    visible_names_of(paths)
}

/// The list offered depends only on which names were found: two lists of
/// names holding the same names give the same list, whatever their order
/// and repetitions.
pub proof fn law_listing_determined_by_names(a: Seq<Seq<char>>, b: Seq<Seq<char>>, found: Set<Seq<char>>)
    requires
        strictly_sorted(a),
        strictly_sorted(b),
        a.to_set() == found,
        b.to_set() == found,
    ensures
        a == b,
{
    lemma_strictly_sorted_unique(a, b);
}

/// The names `bins` sorted, each once, as `sort` then `dedup` leave them.
pub fn sorted_unique(bins: Vec<String>) -> (r: Vec<String>)
    ensures
        strictly_sorted(views(r@)),
        views(r@).to_set() == views(bins@).to_set(),
{
    let ghost input = bins@;
    let sorted = sort_by_rank(bins);
    let ghost srt = sorted@;
    let n = sorted.len();
    let mut out: Vec<String> = Vec::new();
    let mut i: usize = 0;
    while i < n
        invariant
            n == srt.len(),
            srt == sorted@,
            sorted_by_rank(srt),
            i <= n,
            strictly_sorted(views(out@)),
            i > 0 ==> out@.len() > 0 && out@.last()@ == srt[i - 1]@,
            i == 0 ==> out@.len() == 0,
            forall|k: int| 0 <= k < out@.len() ==> exists|j: int| 0 <= j < i && #[trigger] out@[k]@ == srt[j]@,
            forall|j: int| 0 <= j < i ==> views(out@).contains(#[trigger] srt[j]@),
        decreases n - i,
    {
        let ghost before = out@;
        let keep = if out.len() == 0 {
            true
        } else {
            let last = out.len() - 1;
            !str_eq(out[last].as_str(), sorted[i].as_str())
        };
        if keep {
            out.push(sorted[i].clone());
            proof {
                assert forall|a: int, b: int| 0 <= a < b < out@.len() implies lex_le(
                    views(out@)[a],
                    views(out@)[b],
                ) && views(out@)[a] != views(out@)[b] by {
                    if b == out@.len() - 1 {
                        let prev = srt[i - 1];
                        assert(srt[i - 1].rank_le(&srt[i as int]));
                        if a < before.len() - 1 {
                            assert(lex_le(views(before)[a], views(before)[before.len() - 1]));
                            lemma_lex_trans(views(before)[a], srt[i - 1]@, srt[i as int]@);
                            if views(before)[a] == srt[i as int]@ {
                                lemma_lex_antisym(srt[i - 1]@, srt[i as int]@);
                            }
                        }
                    } else {
                        assert(views(out@)[a] == views(before)[a]);
                        assert(views(out@)[b] == views(before)[b]);
                    }
                }
                assert forall|k: int| 0 <= k < out@.len() implies exists|j: int|
                    0 <= j < i + 1 && #[trigger] out@[k]@ == srt[j]@ by {
                    if k < before.len() {
                        assert(out@[k] == before[k]);
                    } else {
                        assert(out@[k]@ == srt[i as int]@);
                    }
                }
                assert forall|j: int| 0 <= j < i + 1 implies views(out@).contains(#[trigger] srt[j]@) by {
                    if j < i {
                        let k = choose|k: int| 0 <= k < views(before).len() && views(before)[k] == srt[j]@;
                        assert(views(out@)[k] == srt[j]@);
                    } else {
                        assert(views(out@)[out@.len() - 1] == srt[j]@);
                    }
                }
            }
        } else {
            proof {
                assert forall|j: int| 0 <= j < i + 1 implies views(out@).contains(#[trigger] srt[j]@) by {
                    if j == i {
                        assert(views(out@)[out@.len() - 1] == srt[j]@);
                    }
                }
                assert forall|k: int| 0 <= k < out@.len() implies exists|j: int|
                    0 <= j < i + 1 && #[trigger] out@[k]@ == srt[j]@ by {
                    let j = choose|j: int| 0 <= j < i && #[trigger] out@[k]@ == srt[j]@;
                }
            }
        }
        i = i + 1;
    }
    proof {
        assert forall|x: Seq<char>| views(out@).to_set().contains(x) implies views(input).to_set().contains(x) by {
            let k = choose|k: int| 0 <= k < views(out@).len() && views(out@)[k] == x;
            assert(out@[k]@ == x);
            let j = choose|j: int| 0 <= j < n && #[trigger] out@[k]@ == srt[j]@;
            crate::sort::lemma_bag_elem(input, srt, j);
            let q = choose|q: int| 0 <= q < input.len() && input[q]@ == srt[j]@;
            assert(views(input)[q] == x);
        }
        assert forall|x: Seq<char>| views(input).to_set().contains(x) implies views(out@).to_set().contains(x) by {
            let q = choose|q: int| 0 <= q < views(input).len() && views(input)[q] == x;
            crate::sort::lemma_bag_elem(srt, input, q);
            let j = choose|j: int| 0 <= j < srt.len() && srt[j]@ == input[q]@;
            assert(views(out@).contains(srt[j]@));
        }
        assert(views(out@).to_set() =~= views(input).to_set());
    }
    out
}

} // verus!
