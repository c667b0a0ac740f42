//! The song picker that reads its list as a whole and expects it to be
//! UTF-8.

use vstd::prelude::*;
use vstd::utf8::{decode_utf8, valid_utf8};

use crate::paths::{join, join_path};
use crate::text::{split_char, split_spec, views};

verus! {

/// The file that lists the songs, under the configuration directory
/// `conf`, as a path built from its components.
pub fn get_path(conf: &str) -> (r: String)
    ensures
        r@ == join(join(conf@, "mpd"@), "songs.txt"@),
{
    let d = join_path(conf, "mpd");
    join_path(d.as_str(), "songs.txt")
}

/// The text of the song list, whose bytes must be UTF-8.
pub fn get_songs(bytes: Vec<u8>) -> (r: String)
    requires
        valid_utf8(bytes@),
    ensures
        r@ == decode_utf8(bytes@),
{
    match crate::decode_text(bytes) {
        Ok(s) => s,
        Err(_) => {
            proof {
                assert(false);
            }
            String::new()
        },
    }
}

/// The lines to offer: the pieces of the song list between newlines.
pub fn song_lines(songs: &str) -> (r: Vec<String>)
    ensures
        views(r@) == split_spec(songs@, '\n'),
{
    split_char(songs, '\n')
}

} // verus!
