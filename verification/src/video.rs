//! The extension classifier and the show/movie content-type guess.
//!
//! A path counts as a media file only when its extension, compared ASCII
//! case-insensitively, is on a fixed allow-list.  Files outside the list are
//! a deliberate policy boundary: the planner skips them silently and never
//! errors on them.

use vstd::prelude::*;

use crate::episode::{parse_episode_key, spec_parse_episode};
use crate::paths::{spec_extension, spec_file_name};
use crate::strutil::{ch_lower, chars_eq_str, chars_to_string, lower_char, to_chars};

verus! {

/// What a path looks like: a TV episode or a movie.
#[derive(Clone, Copy, Debug, PartialEq, Eq, Structural)]
pub enum ContentType {
    Show,
    Movie,
}

impl ContentType {
    /// The human-readable label of the content type.
    pub fn as_str(&self) -> (r: &'static str)
        ensures
            *self == ContentType::Show ==> r@ == "TV Show"@,
            *self == ContentType::Movie ==> r@ == "Movie"@,
    {
        match self {
            ContentType::Show => "TV Show",
            ContentType::Movie => "Movie",
        }
    }
}

/// The fixed allow-list of media extensions, in lower case.
pub open spec fn allowed_extension(e: Seq<char>) -> bool {
    ||| e == "mp4"@
    ||| e == "mkv"@
    ||| e == "avi"@
    ||| e == "mov"@
    ||| e == "flv"@
    ||| e == "wmv"@
    ||| e == "webm"@
    ||| e == "srt"@
}

/// A sequence lower-cased character by character (ASCII only).
pub open spec fn lower_seq(s: Seq<char>) -> Seq<char> {
    s.map_values(|c: char| lower_char(c))
}

/// The classifier's result: the lower-cased extension when the path has one
/// and it is on the allow-list, nothing otherwise.
pub open spec fn spec_parse_extension(path: Seq<char>) -> Option<Seq<char>> {
    match spec_extension(path) {
        None => None,
        Some(e) => {
            let low = lower_seq(e);
            if allowed_extension(low) {
                Some(low)
            } else {
                None
            }
        },
    }
}

/// Classifies a path by its extension: returns the lower-cased extension
/// when it is on the media allow-list, and nothing for a path without an
/// extension or with one outside the list.  The classifier reads the path's
/// text alone; directories are expected to be filtered out by whoever walks
/// the tree.
pub fn parse_extension(path: &str) -> (r: Option<String>)
    ensures
        match r {
            Some(x) => spec_parse_extension(path@) == Some(x@),
            None => spec_parse_extension(path@) is None,
        },
{
    let v = to_chars(path);
    let e = crate::paths::find_strip_end(&v);
    let s = crate::paths::find_segment_start(&v, e);
    if s == e {
        return None;
    }
    let d = match crate::paths::find_last_dot(&v, s, e) {
        Some(d) => d,
        None => {
            return None;
        },
    };
    if d == s {
        return None;
    }
    // Lower-case the characters after the dot.
    let mut lv: Vec<char> = Vec::new();
    let mut k = d + 1;
    proof {
        assert(lv@ =~= lower_seq(v@.subrange(d + 1 as int, d + 1 as int)));
    }
    while k < e
        invariant
            d + 1 <= k <= e <= v@.len(),
            lv@ =~= lower_seq(v@.subrange(d + 1 as int, k as int)),
        decreases e - k,
    {
        lv.push(ch_lower(v[k]));
        proof {
            assert(lv@ =~= lower_seq(v@.subrange(d + 1 as int, k + 1 as int)));
        }
        k = k + 1;
    }
    proof {
        let f = v@.subrange(s as int, e as int);
        assert(f.subrange(d - s + 1 as int, f.len() as int) =~= v@.subrange(d + 1 as int, e as int));
    }
    if chars_eq_str(&lv, "mp4") || chars_eq_str(&lv, "mkv") || chars_eq_str(&lv, "avi")
        || chars_eq_str(&lv, "mov") || chars_eq_str(&lv, "flv") || chars_eq_str(&lv, "wmv")
        || chars_eq_str(&lv, "webm") || chars_eq_str(&lv, "srt") {
        Some(chars_to_string(&lv))
    } else {
        None
    }
}

/// The content-type guess: a path that parses as an episode is a show,
/// anything else is a movie.
pub open spec fn spec_content_type(path: Seq<char>) -> ContentType {
    if spec_parse_episode(path) is Ok {
        ContentType::Show
    } else {
        ContentType::Movie
    }
}

/// Guesses whether a path is a TV episode or a movie by trying the episode
/// parser on it.
pub fn parse_content_type(path: &str) -> (r: ContentType)
    ensures
        r == spec_content_type(path@),
{
    match parse_episode_key(path) {
        Ok(_) => ContentType::Show,
        Err(_) => ContentType::Movie,
    }
}

} // verus!
