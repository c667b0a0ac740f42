//! Unix path names as strings: the last component, its extension, and
//! joining a relative component.

use vstd::prelude::*;

use crate::text::{
    concat, last_index, lemma_last_index, lemma_split_nonempty, lemma_split_one_piece, owned,
    rfind_char, split_char, split_spec, views,
};

verus! {

/// A piece between slashes that names a component: not empty, not `.`.
pub open spec fn is_component(seg: Seq<char>) -> bool {
    seg.len() > 0 && seg != seq!['.']
}

/// The last piece in `segs` that names a component.
pub open spec fn last_component(segs: Seq<Seq<char>>) -> Option<Seq<char>>
    decreases segs.len(),
{
    if segs.len() == 0 {
        None
    } else if is_component(segs.last()) {
        Some(segs.last())
    } else {
        last_component(segs.drop_last())
    }
}

/// The final component of the path `p`, as `Path::file_name` gives it:
/// none when the path is empty, the root, `.` alone, or ends in `..`.
pub open spec fn file_name(p: Seq<char>) -> Option<Seq<char>> {
    match last_component(split_spec(p, '/')) {
        Some(c) => if c == seq!['.', '.'] {
            None
        } else {
            Some(c)
        },
        None => None,
    }
}

/// A path that ends in a plain name, alone or after a slash, has that name
/// as its file name.
pub proof fn law_file_name_is_last_name(base: Seq<char>, name: Seq<char>)
    requires
        name.len() > 0,
        !name.contains('/'),
        name != seq!['.'],
        name != seq!['.', '.'],
    ensures
        file_name(base + seq!['/'] + name) == Some(name),
        file_name(name) == Some(name),
{
    let b = base + seq!['/'];
    assert(b.drop_last() =~= base);
    assert(b.last() == '/');
    lemma_split_nonempty(base, '/');
    assert(split_spec(b, '/') == split_spec(base, '/').push(Seq::<char>::empty()));
    crate::lemma_split_append_plain(b, name, '/');
    let a = split_spec(b, '/');
    assert(a.last() + name =~= name);
    let pieces = split_spec(b + name, '/');
    assert(pieces.last() == name);
    assert(b + name =~= base + seq!['/'] + name);
    lemma_split_one_piece(name, '/');
    assert(split_spec(name, '/').last() == name);
}

/// The extension of the file name of `p`, as `Path::extension` gives it.
pub open spec fn extension(p: Seq<char>) -> Option<Seq<char>> {
    match file_name(p) {
        Some(n) => {
            let d = last_index(n, '.');
            if d <= 0 {
                None
            } else {
                Some(n.skip(d + 1))
            }
        },
        None => None,
    }
}

/// `base` extended by the relative component `comp`, as `PathBuf::push`
/// does it: a slash goes between them unless `base` is empty or already
/// ends in one.
pub open spec fn join(base: Seq<char>, comp: Seq<char>) -> Seq<char> {
    if base.len() == 0 || base.last() == '/' {
        base + comp
    } else {
        base + seq!['/'] + comp
    }
}

/// Whether `s` names a component.
fn is_component_exec(s: &str) -> (r: bool)
    ensures
        r == is_component(s@),
{
    let n = s.unicode_len();
    if n == 0 {
        false
    } else if n == 1 && s.get_char(0) == '.' {
        assert(s@ =~= seq!['.']);
        false
    } else {
        assert(n == 1 ==> s@[0] != seq!['.'][0]);
        true
    }
}

/// Whether `s` is `..`.
fn is_parent(s: &str) -> (r: bool)
    ensures
        r == (s@ == seq!['.', '.']),
{
    let n = s.unicode_len();
    if n == 2 && s.get_char(0) == '.' && s.get_char(1) == '.' {
        assert(s@ =~= seq!['.', '.']);
        true
    } else {
        assert(n == 2 ==> s@[0] != seq!['.', '.'][0] || s@[1] != seq!['.', '.'][1]);
        false
    }
}

/// The final component of `p`.
pub fn file_name_of(p: &str) -> (r: Option<String>)
    ensures
        r is None <==> file_name(p@) is None,
        r matches Some(n) ==> file_name(p@) == Some(n@),
{
    let segs = split_char(p, '/');
    let ghost all = views(segs@);
    let mut i: usize = segs.len();
    assert(all.take(i as int) =~= all);
    while i > 0
        invariant
            i <= segs@.len(),
            all == views(segs@),
            all == split_spec(p@, '/'),
            last_component(all) == last_component(all.take(i as int)),
        decreases i,
    {
        let s = &segs[i - 1];
        assert(all.take(i as int).drop_last() =~= all.take(i - 1));
        assert(all.take(i as int).last() == s@);
        if is_component_exec(s.as_str()) {
            if is_parent(s.as_str()) {
                return None;
            }
            let r = s.clone();
            return Some(r);
        }
        i = i - 1;
    }
    None
}

/// The extension of the file name of `p`.
pub fn extension_of(p: &str) -> (r: Option<String>)
    ensures
        r is None <==> extension(p@) is None,
        r matches Some(e) ==> extension(p@) == Some(e@),
{
    match file_name_of(p) {
        None => None,
        Some(n) => match rfind_char(n.as_str(), '.') {
            None => None,
            Some(d) => {
                if d == 0 {
                    None
                } else {
                    proof {
                        lemma_last_index(n@, '.');
                    }
                    let len = n.as_str().unicode_len();
                    let e = owned(n.as_str().substring_char(d + 1, len));
                    assert(e@ =~= n@.skip(d + 1));
                    Some(e)
                }
            },
        },
    }
}

/// `base` extended by the relative component `comp`.
pub fn join_path(base: &str, comp: &str) -> (r: String)
    ensures
        r@ == join(base@, comp@),
{
    let n = base.unicode_len();
    if n == 0 || base.get_char(n - 1) == '/' {
        concat(base, comp)
    } else {
        let mut s = owned(base);
        crate::text::push_char(&mut s, '/');
        let r = s.concat(comp);
        assert(r@ =~= base@ + seq!['/'] + comp@);
        r
    }
}

/// The views of paths given as text where they are UTF-8.
pub open spec fn opt_views(v: Seq<Option<String>>) -> Seq<Option<Seq<char>>> {
    v.map_values(
        |o: Option<String>|
            match o {
                Some(t) => Some(t@),
                None => None,
            },
    )
}

/// Whether `n` names a hidden file: it starts with a dot.
pub open spec fn is_hidden(n: Seq<char>) -> bool {
    n.len() > 0 && n[0] == '.'
}

/// The file names of the paths `es` that are not hidden, in order; a path
/// that is not UTF-8 (`None`) or has no file name gives none.
pub open spec fn visible_names(es: Seq<Option<Seq<char>>>) -> Seq<Seq<char>>
    decreases es.len(),
{
    if es.len() == 0 {
        Seq::empty()
    } else {
        let rest = visible_names(es.drop_last());
        match es.last() {
            Some(p) => match file_name(p) {
                Some(n) => if is_hidden(n) {
                    rest
                } else {
                    rest.push(n)
                },
                None => rest,
            },
            None => rest,
        }
    }
}

/// The names kept are the file names of the entries that are text and
/// have a file name that does not start with a dot, in order.
pub proof fn law_visible_names_is_filter_map(es: Seq<Option<Seq<char>>>)
    ensures
        visible_names(es) == es.filter_map(
            |o: Option<Seq<char>>|
                match o {
                    Some(p) => match file_name(p) {
                        Some(n) => if n.len() > 0 && n[0] == '.' {
                            None
                        } else {
                            Some(n)
                        },
                        None => None,
                    },
                    None => None,
                },
        ),
    decreases es.len(),
{
    if es.len() > 0 {
        law_visible_names_is_filter_map(es.drop_last());
        let rest = visible_names(es.drop_last());
        assert forall|n: Seq<char>| rest.push(n) =~= rest + seq![n] by {}
    }
}

/// The file names of the paths `paths` that are not hidden, in order.
pub fn visible_names_of(paths: &Vec<Option<String>>) -> (r: Vec<String>)
    ensures
        views(r@) == visible_names(opt_views(paths@)),
{
    let n = paths.len();
    let mut out: Vec<String> = Vec::new();
    let mut i: usize = 0;
    while i < n
        invariant
            n == paths@.len(),
            i <= n,
            views(out@) == visible_names(opt_views(paths@.take(i as int))),
        decreases n - i,
    {
        assert(opt_views(paths@.take(i + 1)).drop_last() =~= opt_views(paths@.take(i as int)));
        let ghost before = out@;
        match &paths[i] {
            None => {},
            Some(p) => {
                assert(opt_views(paths@.take(i + 1)).last() == Some(p@));
                match file_name_of(p.as_str()) {
                    None => {},
                    Some(name) => {
                        let hidden = crate::text::starts_with_char(name.as_str(), '.');
                        if !hidden {
                            out.push(name);
                            assert(views(out@) =~= views(before).push(out@.last()@));
                        }
                    },
                }
            },
        }
        i = i + 1;
    }
    assert(paths@.take(n as int) =~= paths@);
    out
}

} // verus!
