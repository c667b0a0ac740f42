//! The password picker: it offers every file of the password store, named
//! by its path in the store without the `.gpg` extension.

use vstd::prelude::*;
use vstd::utf8::{decode_utf8, valid_utf8};

use crate::text::{concat, owned, trim_end, trim_end_of, views};

verus! {

/// The password store under the home directory `home`.
pub fn pass_dir(home: &str) -> (r: String)
    ensures
        r@ == home@ + "/.password-store"@,
{
    concat(home, "/.password-store")
}

/// The name under which the file at `rel`, a path relative to the store,
/// is offered and handed to `pass`: the path without its `.gpg`
/// extension, or the whole path when it has none.
pub open spec fn pass_name(rel: Seq<char>) -> Seq<char> {
    let n = rel.len();
    if n > 4 && rel.skip(n - 4) == ".gpg"@ && rel[n - 5] != '/' {
        rel.take(n - 4)
    } else {
        rel
    }
}

/// A file named with the `.gpg` extension is offered under its path
/// without it; every other file under its whole path.
pub proof fn law_gpg_extension_dropped(stem: Seq<char>, other: Seq<char>)
    requires
        stem.len() > 0,
        stem.last() != '/',
        other.len() < 4 || other.skip(other.len() - 4) != ".gpg"@,
    ensures
        pass_name(stem + ".gpg"@) == stem,
        pass_name(other) == other,
{
    reveal_strlit(".gpg");
    let p = stem + ".gpg"@;
    assert(p.skip(p.len() - 4) =~= ".gpg"@);
    assert(p[p.len() - 5] == stem.last());
    assert(p.take(p.len() - 4) =~= stem);
}

/// The name of one file of the store.
fn name_of(rel: &str) -> (r: String)
    ensures
        r@ == pass_name(rel@),
{
    proof {
        reveal_strlit(".gpg");
    }
    let n = rel.unicode_len();
    if n > 4 && rel.get_char(n - 5) != '/' && rel.get_char(n - 4) == '.' && rel.get_char(n - 3)
        == 'g' && rel.get_char(n - 2) == 'p' && rel.get_char(n - 1) == 'g' {
        assert(rel@.skip(n - 4) =~= ".gpg"@);
        let r = owned(rel.substring_char(0, n - 4));
        assert(r@ =~= rel@.take(n - 4));
        r
    } else {
        proof {
            if n > 4 && rel@.skip(n - 4) == ".gpg"@ {
                assert(rel@[n - 4] == rel@.skip(n - 4)[0]);
                assert(rel@[n - 3] == rel@.skip(n - 4)[1]);
                assert(rel@[n - 2] == rel@.skip(n - 4)[2]);
                assert(rel@[n - 1] == rel@.skip(n - 4)[3]);
            }
        }
        owned(rel)
    }
}

/// The names to offer for the files of the store, every one of them,
/// those in sub-folders included, given by their paths relative to the
/// store: each without its `.gpg` extension, in the order given.
pub fn get_names(files: &Vec<String>) -> (r: Vec<String>)
    ensures
        views(r@) == views(files@).map_values(|p: Seq<char>| pass_name(p)),
{
    let n = files.len();
    let mut out: Vec<String> = Vec::new();
    let mut i: usize = 0;
    while i < n
        invariant
            n == files@.len(),
            i <= n,
            out@.len() == i,
            forall|j: int| 0 <= j < i ==> #[trigger] out@[j]@ == pass_name(files@[j]@),
        decreases n - i,
    {
        out.push(name_of(files[i].as_str()));
        i = i + 1;
    }
    assert(views(out@) =~= views(files@).map_values(|p: Seq<char>| pass_name(p)));
    out
}

/// What to type for the output `stdout` of `pass`, which must be UTF-8:
/// the text without its trailing white space.
pub fn password_text(stdout: Vec<u8>) -> (r: String)
    requires
        valid_utf8(stdout@),
    ensures
        r@ == trim_end(decode_utf8(stdout@)),
{
    match crate::decode_text(stdout) {
        Ok(s) => trim_end_of(s.as_str()),
        Err(_) => {
            proof {
                assert(false);
            }
            String::new()
        },
    }
}

} // verus!
