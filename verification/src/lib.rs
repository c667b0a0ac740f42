//! Verified core of a small collection of dmenu-driven launchers: what each
//! launcher shows, how it reads the answer, and how it updates what it keeps
//! on disk. Running programs and touching files is left to the caller.

pub mod emojis;
pub mod error;
pub mod files;
pub mod json_menu;
pub mod menu;
pub mod menu_music;
pub mod menu_videos;
pub mod music;
pub mod notes;
pub mod pass;
pub mod paths;
pub mod playlist;
pub mod run;
pub mod sort;
pub mod strmap;
pub mod text;
pub mod videos;

use vstd::prelude::*;
use vstd::utf8::{decode_utf8, encode_utf8, valid_utf8};

use crate::error::Error;
use crate::text::{
    concat, is_white_space, lemma_split_nonempty, split_spec, trim_end, trim_of, trim_start, trimmed,
    views,
};

verus! {

/// The text that the menu program reads: each item on a line of its own.
pub open spec fn menu_text(items: Seq<Seq<char>>) -> Seq<char>
    decreases items.len(),
{
    if items.len() == 0 {
        Seq::empty()
    } else {
        menu_text(items.drop_last()) + items.last() + seq!['\n']
    }
}

/// What the menu program's answer means, once decoded: the chosen line
/// without surrounding white space.
pub open spec fn answer_of(out: Seq<u8>) -> Seq<char> {
    trimmed(decode_utf8(out))
}

/// Calls `String::from_utf8`, which succeeds exactly on valid UTF-8 and
/// then holds the characters that the bytes encode.
#[verifier::external_body]
fn string_from_utf8(bytes: Vec<u8>) -> (r: Result<String, std::string::FromUtf8Error>)
    ensures
        r is Ok <==> valid_utf8(bytes@),
        r matches Ok(s) ==> s@ == decode_utf8(bytes@),
{
    String::from_utf8(bytes)
}

/// Decodes text, reporting bytes that are not UTF-8.
pub fn decode_text(bytes: Vec<u8>) -> (r: Result<String, Error>)
    ensures
        r is Ok <==> valid_utf8(bytes@),
        r matches Ok(s) ==> s@ == decode_utf8(bytes@),
        r matches Err(e) ==> e is FromUtf8,
{
    match string_from_utf8(bytes) {
        Ok(s) => Ok(s),
        Err(e) => Err(Error::FromUtf8(e)),
    }
}

/// The standard input for the menu program: each item followed by a
/// newline.
pub fn menu_input(items: &Vec<String>) -> (r: String)
    ensures
        r@ == menu_text(views(items@)),
{
    let n = items.len();
    let mut out = String::new();
    let mut i: usize = 0;
    while i < n
        invariant
            n == items@.len(),
            i <= n,
            out@ == menu_text(views(items@.take(i as int))),
        decreases n - i,
    {
        out.append(items[i].as_str());
        crate::text::push_char(&mut out, '\n');
        assert(views(items@.take(i + 1)).drop_last() =~= views(items@.take(i as int)));
        i = i + 1;
    }
    assert(items@.take(n as int) =~= items@);
    out
}

/// The menu program's answer, read from its standard output: an error
/// when the output is not UTF-8 or holds nothing but white space.
pub fn menu_answer(stdout: Vec<u8>) -> (r: Result<String, Error>)
    ensures
        r is Ok <==> valid_utf8(stdout@) && answer_of(stdout@).len() > 0,
        r matches Ok(s) ==> s@ == answer_of(stdout@),
        r matches Err(e) ==> (e is FromUtf8 <==> !valid_utf8(stdout@)),
        r matches Err(e) ==> (e is EmptyResult <==> valid_utf8(stdout@)),
{
    let text = match decode_text(stdout) {
        Ok(t) => t,
        Err(e) => {
            return Err(e);
        },
    };
    let answer = trim_of(text.as_str());
    if answer.as_str().unicode_len() == 0 {
        Err(Error::EmptyResult)
    } else {
        Ok(answer)
    }
}

/// Text without a separator only lengthens the last piece that `split`
/// yields.
proof fn lemma_split_append_plain(t: Seq<char>, w: Seq<char>, sep: char)
    requires
        !w.contains(sep),
    ensures
        split_spec(t + w, sep) == split_spec(t, sep).update(
            split_spec(t, sep).len() - 1,
            split_spec(t, sep).last() + w,
        ),
    decreases w.len(),
{
    lemma_split_nonempty(t, sep);
    if w.len() == 0 {
        assert(t + w =~= t);
        assert(split_spec(t, sep).last() + w =~= split_spec(t, sep).last());
        assert(split_spec(t, sep).update(split_spec(t, sep).len() - 1, split_spec(t, sep).last())
            =~= split_spec(t, sep));
    } else {
        let w1 = w.drop_last();
        assert(!w1.contains(sep)) by {
            if w1.contains(sep) {
                let j = choose|j: int| 0 <= j < w1.len() && w1[j] == sep;
                assert(w[j] == sep);
            }
        }
        lemma_split_append_plain(t, w1, sep);
        lemma_split_nonempty(t + w1, sep);
        assert((t + w).drop_last() =~= t + w1);
        assert((t + w).last() == w.last());
        assert(w.last() != sep) by {
            assert(w[w.len() - 1] == w.last());
        }
        let a = split_spec(t, sep);
        assert((a.last() + w1).push(w.last()) =~= a.last() + w);
        assert(split_spec(t + w, sep) =~= a.update(a.len() - 1, a.last() + w));
    }
}

/// The menu program reads back the items as the lines of its input: each
/// item on a line of its own, and nothing after the last newline, when no
/// item holds a newline.
pub proof fn law_menu_lines_are_items(items: Seq<Seq<char>>)
    requires
        forall|i: int| 0 <= i < items.len() ==> !(#[trigger] items[i]).contains('\n'),
    ensures
        split_spec(menu_text(items), '\n') == items.push(Seq::<char>::empty()),
    decreases items.len(),
{
    if items.len() == 0 {
        assert(split_spec(Seq::<char>::empty(), '\n') =~= seq![Seq::<char>::empty()]);
        assert(items.push(Seq::<char>::empty()) =~= seq![Seq::<char>::empty()]);
    } else {
        let rest = items.drop_last();
        assert forall|i: int| 0 <= i < rest.len() implies !(#[trigger] rest[i]).contains('\n') by {
            assert(rest[i] == items[i]);
        }
        law_menu_lines_are_items(rest);
        let m = menu_text(rest);
        let x = items.last();
        assert(!x.contains('\n')) by {
            assert(items[items.len() - 1] == x);
        }
        lemma_split_append_plain(m, x, '\n');
        let whole = m + x + seq!['\n'];
        assert(menu_text(items) == whole);
        assert(whole.drop_last() =~= m + x);
        assert(whole.last() == '\n');
        assert(split_spec(whole, '\n') == split_spec(m + x, '\n').push(Seq::<char>::empty()));
        let a = split_spec(m, '\n');
        assert(a == rest.push(Seq::<char>::empty()));
        assert(a.last() + x =~= x);
        assert(a.update(a.len() - 1, x) =~= rest.push(x));
        assert(rest.push(x) =~= items);
    }
}

/// The answer is the text that the menu program wrote with the white space
/// at both ends removed: it starts at some position `a` of the text, only
/// white space stands before and after it, and it neither starts nor ends
/// with white space.
pub proof fn law_answer_is_trimmed_text(out: Seq<u8>) -> (a: int)
    ensures
        0 <= a,
        a + answer_of(out).len() <= decode_utf8(out).len(),
        answer_of(out) == decode_utf8(out).subrange(a, a + answer_of(out).len()),
        forall|i: int| 0 <= i < a ==> is_white_space(#[trigger] decode_utf8(out)[i]),
        forall|i: int|
            a + answer_of(out).len() <= i < decode_utf8(out).len() ==> is_white_space(
                #[trigger] decode_utf8(out)[i],
            ),
        answer_of(out).len() > 0 ==> !is_white_space(answer_of(out)[0]) && !is_white_space(
            answer_of(out).last(),
        ),
{
    crate::text::law_trimmed(decode_utf8(out))
}

/// A line that the menu program hands back as it was offered, followed by
/// a newline, is the answer, when it is not empty and has no white space
/// at either end.
pub proof fn law_picked_line_is_answer(line: Seq<char>)
    requires
        line.len() > 0,
        !is_white_space(line[0]),
        !is_white_space(line.last()),
    ensures
        valid_utf8(encode_utf8(line + seq!['\n'])),
        answer_of(encode_utf8(line + seq!['\n'])) == line,
{
    let out = line + seq!['\n'];
    vstd::utf8::encode_utf8_valid_utf8(out);
    vstd::utf8::encode_utf8_decode_utf8(out);
    assert(out[0] == line[0]);
    assert(trim_start(out) == out);
    assert(out.last() == '\n');
    assert(out.drop_last() =~= line);
    assert(trim_end(line) == line);
}

/// The configuration directory: `$XDG_CONFIG_DIR` when set, else
/// `.config` under `$HOME`.
pub fn get_conf_dir(xdg_config_dir: Option<String>, home: Option<String>) -> (r: String)
    requires
        xdg_config_dir is Some || home is Some,
    ensures
        r@ == match xdg_config_dir {
            Some(x) => x@,
            None => home.unwrap()@ + "/.config"@,
        },
{
    match xdg_config_dir {
        Some(x) => x,
        None => {
            let h = home.unwrap();
            concat(h.as_str(), "/.config")
        },
    }
}

} // verus!
