//! The file browser: it offers the parent directory and the files of the
//! current one that are not hidden, in order.

use vstd::prelude::*;

use crate::paths::is_hidden;
use crate::sort::{sort_by_rank, sorted_by_rank, view_bag};
use crate::text::{owned, starts_with_char, views};

verus! {

broadcast use vstd::seq_lib::group_to_multiset_ensures;

/// The names among `names` that are not hidden, in order.
pub open spec fn not_hidden(names: Seq<Seq<char>>) -> Seq<Seq<char>>
    decreases names.len(),
{
    if names.len() == 0 {
        Seq::empty()
    } else {
        let rest = not_hidden(names.drop_last());
        if is_hidden(names.last()) {
            rest
        } else {
            rest.push(names.last())
        }
    }
}

/// The names kept are those that do not start with a dot, in order.
pub proof fn law_not_hidden_is_filter(names: Seq<Seq<char>>)
    ensures
        not_hidden(names) == names.filter(|n: Seq<char>| !(n.len() > 0 && n[0] == '.')),
    decreases names.len(),
{
    reveal(Seq::filter);
    if names.len() > 0 {
        law_not_hidden_is_filter(names.drop_last());
    }
}

/// The entries to offer for a directory whose files are named `names`:
/// `..` and the names that are not hidden, in lexicographic order.
pub fn get_files(names: &Vec<String>) -> (r: Vec<String>)
    ensures
        sorted_by_rank(r@),
        view_bag(r@) == (seq![".."@] + not_hidden(views(names@))).to_multiset(),
{
    let mut v: Vec<String> = Vec::new();
    v.push(owned(".."));
    let n = names.len();
    let mut i: usize = 0;
    while i < n
        invariant
            n == names@.len(),
            i <= n,
            views(v@) == seq![".."@] + not_hidden(views(names@.take(i as int))),
        decreases n - i,
    {
        assert(views(names@.take(i + 1)).drop_last() =~= views(names@.take(i as int)));
        assert(views(names@.take(i + 1)).last() == names@[i as int]@);
        let ghost before = v@;
        if !starts_with_char(names[i].as_str(), '.') {
            v.push(names[i].clone());
            assert(views(v@) =~= views(before).push(names@[i as int]@));
        }
        i = i + 1;
    }
    assert(names@.take(n as int) =~= names@);
    assert(v@.map_values(|t: String| t@) =~= views(v@));
    sort_by_rank(v)
}

} // verus!
