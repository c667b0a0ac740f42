//! The song picker that reports a song list that is not UTF-8 as an
//! error.

use vstd::prelude::*;
use vstd::utf8::{decode_utf8, valid_utf8};

use crate::error::Error;
use crate::text::concat;

pub use crate::music::song_lines;

verus! {

/// The file that lists the songs, under the configuration directory
/// `conf`.
pub fn get_path(conf: &str) -> (r: String)
    ensures
        r@ == conf@ + "/mpd/songs.txt"@,
{
    concat(conf, "/mpd/songs.txt")
}

/// The text of the song list; an error when its bytes are not UTF-8.
pub fn get_songs(bytes: Vec<u8>) -> (r: Result<String, Error>)
    ensures
        r is Ok <==> valid_utf8(bytes@),
        r matches Ok(s) ==> s@ == decode_utf8(bytes@),
        r matches Err(e) ==> e is FromUtf8,
{
    crate::decode_text(bytes)
}

} // verus!
