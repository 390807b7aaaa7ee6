//! The title extractor: a best-effort guess of a human-readable title from a
//! file name, used to seed an interactive search prompt.
//!
//! The stem of the file name is cut at the earliest offset where any
//! release-metadata pattern starts — a season or episode marker, a bare
//! four-digit year, a resolution tag such as `1080p`, a known encoding or
//! release-quality tag (compared ASCII case-insensitively), or a bracketed
//! or parenthesized group.  Dots, underscores and dashes in what remains
//! become spaces, runs of whitespace collapse to one space, and an empty
//! result is reported as no title at all.

use vstd::prelude::*;
use vstd::string::StrSliceExecFns;

use crate::paths::{last_dot, last_segment, spec_file_stem, strip_slashes};
use crate::strutil::{
    ch_is_digit, ch_is_space, ch_lower, is_ascii_digit, is_space_char, lower_char, push_char,
    to_chars,
};

verus! {

/// A separator that the cleaning step turns into a space.
pub open spec fn is_title_sep(c: char) -> bool {
    c == '.' || c == '_' || c == '-'
}

/// The stem with every `.`, `_` and `-` replaced by a space.
pub open spec fn blank_mapped(s: Seq<char>) -> Seq<char> {
    s.map_values(
        |c: char|
            if is_title_sep(c) {
                ' '
            } else {
                c
            },
    )
}

/// A case-insensitive (ASCII) match of the lower-case pattern `p` at `i`.
pub open spec fn ci_at(s: Seq<char>, i: int, p: Seq<char>) -> bool {
    &&& 0 <= i
    &&& i + p.len() <= s.len()
    &&& forall|j: int| 0 <= j < p.len() ==> lower_char(s[i + j]) == p[j]
}

/// A season or episode marker: `S`, `s`, `E` or `e` directly followed by a
/// digit.
pub open spec fn marker_tag_at(s: Seq<char>, i: int) -> bool {
    0 <= i && i + 1 < s.len() && (s[i] == 'S' || s[i] == 's' || s[i] == 'E' || s[i] == 'e')
        && is_ascii_digit(s[i + 1])
}

/// Four digits in a row, the shape of a year.
pub open spec fn year_at(s: Seq<char>, i: int) -> bool {
    0 <= i && i + 4 <= s.len() && is_ascii_digit(s[i]) && is_ascii_digit(s[i + 1]) && is_ascii_digit(
        s[i + 2],
    ) && is_ascii_digit(s[i + 3])
}

/// Three or four digits followed by `p`, the shape of a resolution tag.
pub open spec fn resolution_at(s: Seq<char>, i: int) -> bool {
    ||| (0 <= i && i + 4 <= s.len() && is_ascii_digit(s[i]) && is_ascii_digit(s[i + 1])
        && is_ascii_digit(s[i + 2]) && s[i + 3] == 'p')
    ||| (0 <= i && i + 5 <= s.len() && is_ascii_digit(s[i]) && is_ascii_digit(s[i + 1])
        && is_ascii_digit(s[i + 2]) && is_ascii_digit(s[i + 3]) && s[i + 4] == 'p')
}

/// A known encoding or source tag.
pub open spec fn codec_tag_at(s: Seq<char>, i: int) -> bool {
    ||| ci_at(s, i, "bluray"@)
    ||| ci_at(s, i, "brrip"@)
    ||| ci_at(s, i, "webrip"@)
    ||| ci_at(s, i, "web-dl"@)
    ||| ci_at(s, i, "hdtv"@)
    ||| ci_at(s, i, "dvdrip"@)
    ||| ci_at(s, i, "xvid"@)
    ||| ci_at(s, i, "x264"@)
    ||| ci_at(s, i, "x265"@)
    ||| ci_at(s, i, "h264"@)
    ||| ci_at(s, i, "h265"@)
}

/// A known release-quality tag; `directors` and `cut` may be separated by
/// any single character other than a line break.
pub open spec fn release_tag_at(s: Seq<char>, i: int) -> bool {
    ||| ci_at(s, i, "proper"@)
    ||| ci_at(s, i, "repack"@)
    ||| ci_at(s, i, "internal"@)
    ||| ci_at(s, i, "limited"@)
    ||| ci_at(s, i, "unrated"@)
    ||| ci_at(s, i, "extended"@)
    ||| (ci_at(s, i, "directors"@) && i + 13 <= s.len() && s[i + 9] != '\n' && ci_at(
        s,
        i + 10,
        "cut"@,
    ))
}

/// An opening bracket with a matching closer later on the same line.
pub open spec fn group_at(s: Seq<char>, i: int, open: char, close: char) -> bool {
    &&& 0 <= i < s.len()
    &&& s[i] == open
    &&& exists|j: int|
        i < j < s.len() && s[j] == close && (forall|k: int| i < k < j ==> s[k] != '\n')
}

/// Release metadata starts at `i`.
pub open spec fn metadata_at(s: Seq<char>, i: int) -> bool {
    ||| marker_tag_at(s, i)
    ||| year_at(s, i)
    ||| resolution_at(s, i)
    ||| codec_tag_at(s, i)
    ||| release_tag_at(s, i)
    ||| group_at(s, i, '[', ']')
    ||| group_at(s, i, '(', ')')
}

/// The earliest index at or after `i` where metadata starts, or the length
/// when none does.
pub open spec fn first_meta_from(s: Seq<char>, i: int) -> int
    decreases s.len() - i,
{
    if i >= s.len() {
        s.len() as int
    } else if metadata_at(s, i) {
        i
    } else {
        first_meta_from(s, i + 1)
    }
}

/// The first index at or after `i` that is not whitespace.
pub open spec fn blanks_end(s: Seq<char>, i: int) -> int
    decreases s.len() - i,
{
    if 0 <= i < s.len() && is_space_char(s[i]) {
        blanks_end(s, i + 1)
    } else {
        i
    }
}

/// The first index at or after `i` that is whitespace, or the length.
pub open spec fn word_end(s: Seq<char>, i: int) -> int
    decreases s.len() - i,
{
    if 0 <= i < s.len() && !is_space_char(s[i]) {
        word_end(s, i + 1)
    } else {
        i
    }
}

proof fn lemma_blanks_end_bounds(s: Seq<char>, i: int)
    requires
        0 <= i <= s.len(),
    ensures
        i <= blanks_end(s, i) <= s.len(),
        blanks_end(s, i) == s.len() || !is_space_char(s[blanks_end(s, i)]),
    decreases s.len() - i,
{
    if i < s.len() && is_space_char(s[i]) {
        lemma_blanks_end_bounds(s, i + 1);
    }
}

proof fn lemma_word_end_bounds(s: Seq<char>, i: int)
    requires
        0 <= i <= s.len(),
    ensures
        i <= word_end(s, i) <= s.len(),
        i < s.len() && !is_space_char(s[i]) ==> word_end(s, i) > i,
    decreases s.len() - i,
{
    if i < s.len() && !is_space_char(s[i]) {
        lemma_word_end_bounds(s, i + 1);
    }
}

/// The whitespace-separated words of `s`, starting at `i`, joined by single
/// spaces.
pub open spec fn joined_words(s: Seq<char>, i: int) -> Seq<char>
    decreases s.len() - i,
    via joined_words_decreases
{
    if i < 0 || i >= s.len() {
        Seq::empty()
    } else {
        let b = blanks_end(s, i);
        if b >= s.len() {
            Seq::empty()
        } else {
            let e = word_end(s, b);
            let w = s.subrange(b, e);
            let rest = joined_words(s, e);
            if rest.len() == 0 {
                w
            } else {
                w + seq![' '] + rest
            }
        }
    }
}

#[via_fn]
proof fn joined_words_decreases(s: Seq<char>, i: int) {
    if 0 <= i < s.len() {
        lemma_blanks_end_bounds(s, i);
        let b = blanks_end(s, i);
        if b < s.len() {
            lemma_word_end_bounds(s, b);
        }
    }
}

/// The extractor's result: the cleaned text of the stem before the earliest
/// metadata pattern, or nothing when the path has no stem or the cleaned
/// text is empty.
pub open spec fn spec_parse_title(path: Seq<char>) -> Option<Seq<char>> {
    match spec_file_stem(path) {
        None => None,
        Some(stem) => {
            let cut = first_meta_from(stem, 0);
            let cleaned = joined_words(blank_mapped(stem.subrange(0, cut)), 0);
            if cleaned.len() == 0 {
                None
            } else {
                Some(cleaned)
            }
        },
    }
}

// ---------------------------------------------------------------------------
// Executable extraction
// ---------------------------------------------------------------------------

fn ci_at_exec(v: &Vec<char>, i: usize, pat: &str) -> (r: bool)
    requires
        i <= v@.len(),
    ensures
        r == ci_at(v@, i as int, pat@),
{
    let m = pat.unicode_len();
    if v.len() - i < m {
        return false;
    }
    let mut j: usize = 0;
    while j < m
        invariant
            j <= m,
            m == pat@.len(),
            i + m <= v@.len() <= usize::MAX,
            forall|x: int| 0 <= x < j ==> lower_char(v@[i + x]) == pat@[x],
        decreases m - j,
    {
        if ch_lower(v[i + j]) != pat.get_char(j) {
            return false;
        }
        j = j + 1;
    }
    true
}

fn group_at_exec(v: &Vec<char>, i: usize, open: char, close: char) -> (r: bool)
    requires
        i < v@.len(),
    ensures
        r == group_at(v@, i as int, open, close),
{
    let n = v.len();
    if v[i] != open {
        return false;
    }
    let mut j = i + 1;
    while j < n
        invariant
            i < j <= n,
            n == v@.len(),
            v@[i as int] == open,
            forall|k: int| i < k < j ==> v@[k] != close && v@[k] != '\n',
        decreases n - j,
    {
        if v[j] == close {
            return true;
        }
        if v[j] == '\n' {
            proof {
                assert forall|x: int|
                    i < x < v@.len() && v@[x] == close implies !(forall|k: int|
                    i < k < x ==> v@[k] != '\n') by {
                    assert(i < j < x && v@[j as int] == '\n');
                }
            }
            return false;
        }
        j = j + 1;
    }
    proof {
        assert forall|x: int|
            i < x < v@.len() && v@[x] == close implies !(forall|k: int|
            i < k < x ==> v@[k] != '\n') by {
            assert(v@[x] != close);
        }
    }
    false
}

fn metadata_at_exec(v: &Vec<char>, i: usize) -> (r: bool)
    requires
        i < v@.len(),
    ensures
        r == metadata_at(v@, i as int),
{
    let n = v.len();
    let c = v[i];
    if (c == 'S' || c == 's' || c == 'E' || c == 'e') && n - i >= 2 && ch_is_digit(v[i + 1]) {
        return true;
    }
    if n - i >= 4 && ch_is_digit(v[i]) && ch_is_digit(v[i + 1]) && ch_is_digit(v[i + 2])
        && ch_is_digit(v[i + 3]) {
        return true;
    }
    if n - i >= 4 && ch_is_digit(v[i]) && ch_is_digit(v[i + 1]) && ch_is_digit(v[i + 2]) && v[i + 3]
        == 'p' {
        return true;
    }
    if n - i >= 5 && ch_is_digit(v[i]) && ch_is_digit(v[i + 1]) && ch_is_digit(v[i + 2])
        && ch_is_digit(v[i + 3]) && v[i + 4] == 'p' {
        return true;
    }
    if ci_at_exec(v, i, "bluray") || ci_at_exec(v, i, "brrip") || ci_at_exec(v, i, "webrip")
        || ci_at_exec(v, i, "web-dl") || ci_at_exec(v, i, "hdtv") || ci_at_exec(v, i, "dvdrip")
        || ci_at_exec(v, i, "xvid") || ci_at_exec(v, i, "x264") || ci_at_exec(v, i, "x265")
        || ci_at_exec(v, i, "h264") || ci_at_exec(v, i, "h265") {
        return true;
    }
    if ci_at_exec(v, i, "proper") || ci_at_exec(v, i, "repack") || ci_at_exec(v, i, "internal")
        || ci_at_exec(v, i, "limited") || ci_at_exec(v, i, "unrated") || ci_at_exec(
        v,
        i,
        "extended",
    ) {
        return true;
    }
    if ci_at_exec(v, i, "directors") && n - i >= 13 && v[i + 9] != '\n' && ci_at_exec(
        v,
        i + 10,
        "cut",
    ) {
        return true;
    }
    if group_at_exec(v, i, '[', ']') || group_at_exec(v, i, '(', ')') {
        return true;
    }
    false
}

fn find_blanks_end(v: &Vec<char>, i: usize) -> (r: usize)
    requires
        i <= v@.len(),
    ensures
        r as int == blanks_end(v@, i as int),
        i <= r <= v@.len(),
{
    let n = v.len();
    let mut j = i;
    while j < n && ch_is_space(v[j])
        invariant
            i <= j <= n,
            n == v@.len(),
            blanks_end(v@, i as int) == blanks_end(v@, j as int),
        decreases n - j,
    {
        j = j + 1;
    }
    j
}

fn find_word_end(v: &Vec<char>, i: usize) -> (r: usize)
    requires
        i <= v@.len(),
    ensures
        r as int == word_end(v@, i as int),
        i <= r <= v@.len(),
{
    let n = v.len();
    let mut j = i;
    while j < n && !ch_is_space(v[j])
        invariant
            i <= j <= n,
            n == v@.len(),
            word_end(v@, i as int) == word_end(v@, j as int),
        decreases n - j,
    {
        j = j + 1;
    }
    j
}

/// Extracts a title guess from a file path: the stem cut at the earliest
/// release-metadata pattern, separators turned into spaces and whitespace
/// collapsed.  Returns nothing when the path has no stem or nothing of the
/// title remains.
pub fn parse_title(path: &str) -> (r: Option<String>)
    ensures
        match r {
            Some(t) => spec_parse_title(path@) == Some(t@),
            None => spec_parse_title(path@) is None,
        },
{
    let v = to_chars(path);
    let e = crate::paths::find_strip_end(&v);
    let s = crate::paths::find_segment_start(&v, e);
    if s == e {
        return None;
    }
    let dot = crate::paths::find_last_dot(&v, s, e);
    let stem_end = match dot {
        Some(d) => if d > s {
            d
        } else {
            e
        },
        None => e,
    };
    proof {
        let f = last_segment(strip_slashes(v@));
        assert(f == last_segment(v@.subrange(0, e as int)));
        assert(f == v@.subrange(s as int, e as int));
        if dot is Some && dot->0 > s {
            let d = dot->0 as int;
            assert(last_dot(f) == d - s && d - s > 0);
            assert(f.subrange(0, d - s) =~= v@.subrange(s as int, d));
            assert(spec_file_stem(v@) == Some(v@.subrange(s as int, stem_end as int)));
        } else {
            assert(spec_file_stem(v@) == Some(v@.subrange(s as int, stem_end as int)));
        }
    }
    // Copy the stem, mapping separators to spaces as we go.
    let mut mv: Vec<char> = Vec::new();
    let mut k = s;
    proof {
        assert(mv@ =~= blank_mapped(v@.subrange(s as int, s as int)));
    }
    while k < stem_end
        invariant
            s <= k <= stem_end <= v@.len(),
            mv@ =~= blank_mapped(v@.subrange(s as int, k as int)),
        decreases stem_end - k,
    {
        let c = v[k];
        if c == '.' || c == '_' || c == '-' {
            mv.push(' ');
        } else {
            mv.push(c);
        }
        proof {
            assert(mv@ =~= blank_mapped(v@.subrange(s as int, k + 1 as int)));
        }
        k = k + 1;
    }
    // The metadata cut is found on the raw stem, not the mapped one.
    let mut sv: Vec<char> = Vec::new();
    let mut k2 = s;
    proof {
        assert(sv@ =~= v@.subrange(s as int, s as int));
    }
    while k2 < stem_end
        invariant
            s <= k2 <= stem_end <= v@.len(),
            sv@ =~= v@.subrange(s as int, k2 as int),
        decreases stem_end - k2,
    {
        sv.push(v[k2]);
        proof {
            assert(sv@ =~= v@.subrange(s as int, k2 + 1 as int));
        }
        k2 = k2 + 1;
    }
    let m = sv.len();
    let mut cut: usize = 0;
    while cut < m && !metadata_at_exec(&sv, cut)
        invariant
            cut <= m,
            m == sv@.len(),
            first_meta_from(sv@, 0) == first_meta_from(sv@, cut as int),
        decreases m - cut,
    {
        cut = cut + 1;
    }
    // Collapse whitespace over the mapped prefix.
    proof {
        assert(blank_mapped(sv@).subrange(0, cut as int) =~= blank_mapped(
            sv@.subrange(0, cut as int),
        ));
        assert(mv@ == blank_mapped(sv@));
    }
    let mut cv: Vec<char> = Vec::new();
    let mut k3: usize = 0;
    proof {
        assert(cv@ =~= mv@.subrange(0, 0));
    }
    while k3 < cut
        invariant
            k3 <= cut <= mv@.len(),
            cv@ =~= mv@.subrange(0, k3 as int),
        decreases cut - k3,
    {
        cv.push(mv[k3]);
        proof {
            assert(cv@ =~= mv@.subrange(0, k3 + 1 as int));
        }
        k3 = k3 + 1;
    }
    let cn = cv.len();
    let mut out = String::new();
    let mut i: usize = 0;
    while i < cn
        invariant
            i <= cn,
            cn == cv@.len(),
            joined_words(cv@, 0) == (if out@.len() == 0 {
                joined_words(cv@, i as int)
            } else if joined_words(cv@, i as int).len() == 0 {
                out@
            } else {
                out@ + seq![' '] + joined_words(cv@, i as int)
            }),
        decreases cn - i,
    {
        let b = find_blanks_end(&cv, i);
        if b == cn {
            i = cn;
        } else {
            let we = find_word_end(&cv, b);
            proof {
                lemma_blanks_end_bounds(cv@, i as int);
                lemma_word_end_bounds(cv@, b as int);
                assert(we > b);
            }
            if !out.as_str().is_empty() {
                push_char(&mut out, ' ');
            }
            let mut k4 = b;
            let ghost base = out@;
            while k4 < we
                invariant
                    b <= k4 <= we <= cv@.len(),
                    out@ =~= base + cv@.subrange(b as int, k4 as int),
                decreases we - k4,
            {
                push_char(&mut out, cv[k4]);
                proof {
                    assert(out@ =~= base + cv@.subrange(b as int, k4 + 1 as int));
                }
                k4 = k4 + 1;
            }
            i = we;
        }
    }
    proof {
        assert(spec_file_stem(v@) == Some(sv@));
        assert(first_meta_from(sv@, 0) == cut as int);
        assert(cv@ == blank_mapped(sv@.subrange(0, cut as int)));
        assert(out@ == joined_words(blank_mapped(sv@.subrange(0, cut as int)), 0));
    }
    if out.as_str().is_empty() {
        None
    } else {
        Some(out)
    }
}

} // verus!
