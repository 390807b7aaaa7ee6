//! The episode identifier: rendering of canonical `SxxEyy` keys and the
//! two-stage scan that recovers a key from a noisy file path.
//!
//! The grammar is this crate's own policy and is stated here as spec
//! functions over the path's characters:
//!
//! * A *season token* is `S` or `s`, optionally followed by lower-case
//!   `eason`, then any run of `.`, `_`, `-` or whitespace, then one or more
//!   digits.  The scan takes the **last** such token in the whole path, so a
//!   season number embedded in a parent directory is a fallback that a token
//!   in the filename itself overrides.
//! * From the end of the season token's digits, an *episode token* is the
//!   first of either `E`/`e` (optionally followed by lower-case `pisode`,
//!   then whitespace) and one or two digits, or a bare one-or-two-digit
//!   number that starts at a word boundary; in both forms the digits must be
//!   followed by `.`, `_`, `-`, a non-word character or the end of the text.
//!
//! Word characters are ASCII letters, digits and underscore; whitespace is
//! ASCII whitespace ([`is_space_char`]).

use vstd::prelude::*;

use crate::strutil::{
    ch_is_digit, ch_is_space, ch_is_word, decimal_digit, digit_value, digits_value, is_ascii_digit,
    is_space_char, is_word_char, padded2, push_char, push_padded2, to_chars,
};

verus! {

/// Why a path could not be parsed as an episode: no season or episode marker
/// was found, or a marker's number does not fit a 32-bit integer.
#[derive(Clone, Copy, Debug, PartialEq, Eq, Structural)]
pub enum ParseError {
    NotFound,
    InvalidNumber,
}

/// A canonical `(season, episode)` identifier, rendered as `SxxEyy`.
#[derive(Clone, Copy, Debug, PartialEq, Eq, Structural)]
pub struct EpisodeKey {
    pub season: i32,
    pub episode: i32,
}

impl EpisodeKey {
    /// Season and episode numbers are never negative.
    pub open spec fn wf(self) -> bool {
        0 <= self.season && 0 <= self.episode
    }
}

/// The canonical rendering `S{season:02}E{episode:02}`.
pub open spec fn spec_episode_id(season: int, episode: int) -> Seq<char> {
    seq!['S'] + padded2(season) + seq!['E'] + padded2(episode)
}

/// Renders a season/episode pair as `S{season:02}E{episode:02}`; numbers of
/// three or more digits keep all their digits.
pub fn episode_id(season: i32, episode: i32) -> (r: String)
    requires
        0 <= season,
        0 <= episode,
    ensures
        r@ == spec_episode_id(season as int, episode as int),
{
    let mut out = String::new();
    push_char(&mut out, 'S');
    push_padded2(&mut out, season);
    push_char(&mut out, 'E');
    push_padded2(&mut out, episode);
    proof {
        assert(out@ =~= spec_episode_id(season as int, episode as int));
    }
    out
}

// ---------------------------------------------------------------------------
// The grammar, as spec functions
// ---------------------------------------------------------------------------

/// A separator admitted between a season marker and its digits.
pub open spec fn is_marker_sep(c: char) -> bool {
    c == '.' || c == '_' || c == '-' || is_space_char(c)
}

/// The first index at or after `i` that does not hold a separator.
pub open spec fn seps_end(s: Seq<char>, i: int) -> int
    decreases s.len() - i,
{
    if 0 <= i < s.len() && is_marker_sep(s[i]) {
        seps_end(s, i + 1)
    } else {
        i
    }
}

/// The first index at or after `i` that does not hold a digit.
pub open spec fn digits_end(s: Seq<char>, i: int) -> int
    decreases s.len() - i,
{
    if 0 <= i < s.len() && is_ascii_digit(s[i]) {
        digits_end(s, i + 1)
    } else {
        i
    }
}

/// The first index at or after `i` that does not hold whitespace.
pub open spec fn ws_end(s: Seq<char>, i: int) -> int
    decreases s.len() - i,
{
    if 0 <= i < s.len() && is_space_char(s[i]) {
        ws_end(s, i + 1)
    } else {
        i
    }
}

/// Lower-case `eason` spelled at index `i`.
pub open spec fn has_eason(s: Seq<char>, i: int) -> bool {
    i + 5 <= s.len() && s[i] == 'e' && s[i + 1] == 'a' && s[i + 2] == 's' && s[i + 3] == 'o' && s[i
        + 4] == 'n'
}

/// Lower-case `pisode` spelled at index `i`.
pub open spec fn has_pisode(s: Seq<char>, i: int) -> bool {
    i + 6 <= s.len() && s[i] == 'p' && s[i + 1] == 'i' && s[i + 2] == 's' && s[i + 3] == 'o' && s[i
        + 4] == 'd' && s[i + 5] == 'e'
}

/// A season token starting at `i`: on success, the index range of its digit
/// run.
pub open spec fn season_token_at(s: Seq<char>, i: int) -> Option<(int, int)> {
    if 0 <= i < s.len() && (s[i] == 'S' || s[i] == 's') {
        let j = if has_eason(s, i + 1) {
            i + 6
        } else {
            i + 1
        };
        let k = seps_end(s, j);
        let m = digits_end(s, k);
        if m > k {
            Some((k, m))
        } else {
            None
        }
    } else {
        None
    }
}

proof fn lemma_seps_end_bounds(s: Seq<char>, i: int)
    requires
        0 <= i <= s.len(),
    ensures
        i <= seps_end(s, i) <= s.len(),
    decreases s.len() - i,
{
    if i < s.len() && is_marker_sep(s[i]) {
        lemma_seps_end_bounds(s, i + 1);
    }
}

proof fn lemma_digits_end_bounds(s: Seq<char>, i: int)
    requires
        0 <= i <= s.len(),
    ensures
        i <= digits_end(s, i) <= s.len(),
        forall|j: int| i <= j < digits_end(s, i) ==> is_ascii_digit(s[j]),
        digits_end(s, i) == s.len() || !is_ascii_digit(s[digits_end(s, i)]),
    decreases s.len() - i,
{
    if i < s.len() && is_ascii_digit(s[i]) {
        lemma_digits_end_bounds(s, i + 1);
    }
}

proof fn lemma_ws_end_bounds(s: Seq<char>, i: int)
    requires
        0 <= i <= s.len(),
    ensures
        i <= ws_end(s, i) <= s.len(),
    decreases s.len() - i,
{
    if i < s.len() && is_space_char(s[i]) {
        lemma_ws_end_bounds(s, i + 1);
    }
}

/// On success a season token's digit range lies strictly after `i` and within
/// the text.
proof fn lemma_season_token_bounds(s: Seq<char>, i: int)
    requires
        season_token_at(s, i) is Some,
    ensures
        ({
            let t = season_token_at(s, i)->0;
            &&& i < t.0 < t.1 <= s.len()
            &&& forall|j: int| t.0 <= j < t.1 ==> is_ascii_digit(s[j])
        }),
{
    let j = if has_eason(s, i + 1) {
        i + 6
    } else {
        i + 1
    };
    lemma_seps_end_bounds(s, j);
    lemma_digits_end_bounds(s, seps_end(s, j));
}

/// The last season token at or after `i`, under the usual non-overlapping
/// scan: after a token is found, the scan resumes at the end of its digits.
pub open spec fn last_season_token(s: Seq<char>, i: int) -> Option<(int, int)>
    decreases s.len() - i,
    via last_season_token_decreases
{
    if i >= s.len() {
        None
    } else {
        match season_token_at(s, i) {
            Some(t) => match last_season_token(s, t.1) {
                Some(u) => Some(u),
                None => Some(t),
            },
            None => last_season_token(s, i + 1),
        }
    }
}

#[via_fn]
proof fn last_season_token_decreases(s: Seq<char>, i: int) {
    if i < s.len() && season_token_at(s, i) is Some {
        lemma_season_token_bounds(s, i);
    }
}

/// The trailing context admitted after an episode number: `.`, `_`, `-`, a
/// non-word character, or the end of the text.
pub open spec fn tail_boundary(s: Seq<char>, j: int) -> bool {
    j >= s.len() || s[j] == '.' || s[j] == '_' || s[j] == '-' || !is_word_char(s[j])
}

/// A word boundary before index `i`.
pub open spec fn word_boundary_at(s: Seq<char>, i: int) -> bool {
    (i > 0 && 0 < i <= s.len() && is_word_char(s[i - 1])) != (0 <= i < s.len() && is_word_char(
        s[i],
    ))
}

/// A one-or-two digit number at `k` with an admissible trailing context: on
/// success, its index range.
pub open spec fn digit_pair_at(s: Seq<char>, k: int) -> Option<(int, int)> {
    if 0 <= k < s.len() && is_ascii_digit(s[k]) {
        if k + 1 < s.len() && is_ascii_digit(s[k + 1]) {
            if tail_boundary(s, k + 2) {
                Some((k, k + 2))
            } else {
                None
            }
        } else {
            if tail_boundary(s, k + 1) {
                Some((k, k + 1))
            } else {
                None
            }
        }
    } else {
        None
    }
}

/// A bare episode number at `i`: digits straight after a word boundary.
pub open spec fn bare_episode_at(s: Seq<char>, i: int) -> Option<(int, int)> {
    if word_boundary_at(s, i) {
        digit_pair_at(s, i)
    } else {
        None
    }
}

/// An episode token starting at `i`: the marked form `E`/`e` (optionally
/// `pisode`, then whitespace) with digits, or the bare-number form.  On
/// success, the index range of the digits.
pub open spec fn episode_token_at(s: Seq<char>, i: int) -> Option<(int, int)> {
    if 0 <= i < s.len() && (s[i] == 'E' || s[i] == 'e') {
        let j = if has_pisode(s, i + 1) {
            i + 7
        } else {
            i + 1
        };
        let k = ws_end(s, j);
        match digit_pair_at(s, k) {
            Some(t) => Some(t),
            None => bare_episode_at(s, i),
        }
    } else {
        bare_episode_at(s, i)
    }
}

/// The first episode token at or after `i`.
pub open spec fn first_episode_token(s: Seq<char>, i: int) -> Option<(int, int)>
    decreases s.len() - i,
{
    if i >= s.len() {
        None
    } else {
        match episode_token_at(s, i) {
            Some(t) => Some(t),
            None => first_episode_token(s, i + 1),
        }
    }
}

/// The whole parse: the last season token anywhere in the path, then the
/// first episode token after it.  `NotFound` when either marker is missing,
/// `InvalidNumber` when the season number overflows an `i32` (the episode
/// number has at most two digits).
pub open spec fn spec_parse_episode(s: Seq<char>) -> Result<(int, int), ParseError> {
    match last_season_token(s, 0) {
        None => Err(ParseError::NotFound),
        Some(st) => match first_episode_token(s, st.1) {
            None => Err(ParseError::NotFound),
            Some(et) => {
                let sv = digits_value(s, st.0, st.1);
                if sv > i32::MAX {
                    Err(ParseError::InvalidNumber)
                } else {
                    Ok((sv, digits_value(s, et.0, et.1)))
                }
            },
        },
    }
}

// ---------------------------------------------------------------------------
// The scanner, executable
// ---------------------------------------------------------------------------

fn find_seps_end(v: &Vec<char>, i: usize) -> (r: usize)
    requires
        i <= v@.len(),
    ensures
        r as int == seps_end(v@, i as int),
        i <= r <= v@.len(),
{
    let n = v.len();
    let mut j = i;
    while j < n && (v[j] == '.' || v[j] == '_' || v[j] == '-' || ch_is_space(v[j]))
        invariant
            i <= j <= n,
            n == v@.len(),
            seps_end(v@, i as int) == seps_end(v@, j as int),
        decreases n - j,
    {
        j = j + 1;
    }
    j
}

fn find_digits_end(v: &Vec<char>, i: usize) -> (r: usize)
    requires
        i <= v@.len(),
    ensures
        r as int == digits_end(v@, i as int),
        i <= r <= v@.len(),
{
    let n = v.len();
    let mut j = i;
    while j < n && ch_is_digit(v[j])
        invariant
            i <= j <= n,
            n == v@.len(),
            digits_end(v@, i as int) == digits_end(v@, j as int),
        decreases n - j,
    {
        j = j + 1;
    }
    j
}

fn find_ws_end(v: &Vec<char>, i: usize) -> (r: usize)
    requires
        i <= v@.len(),
    ensures
        r as int == ws_end(v@, i as int),
        i <= r <= v@.len(),
{
    let n = v.len();
    let mut j = i;
    while j < n && ch_is_space(v[j])
        invariant
            i <= j <= n,
            n == v@.len(),
            ws_end(v@, i as int) == ws_end(v@, j as int),
        decreases n - j,
    {
        j = j + 1;
    }
    j
}

fn eason_at(v: &Vec<char>, i: usize) -> (r: bool)
    requires
        i <= v@.len(),
    ensures
        r == has_eason(v@, i as int),
{
    v.len() - i >= 5 && v[i] == 'e' && v[i + 1] == 'a' && v[i + 2] == 's' && v[i + 3] == 'o' && v[i
        + 4] == 'n'
}

fn pisode_at(v: &Vec<char>, i: usize) -> (r: bool)
    requires
        i <= v@.len(),
    ensures
        r == has_pisode(v@, i as int),
{
    v.len() - i >= 6 && v[i] == 'p' && v[i + 1] == 'i' && v[i + 2] == 's' && v[i + 3] == 'o' && v[i
        + 4] == 'd' && v[i + 5] == 'e'
}

fn season_token_at_exec(v: &Vec<char>, i: usize) -> (r: Option<(usize, usize)>)
    requires
        i < v@.len(),
    ensures
        match r {
            Some(t) => season_token_at(v@, i as int) == Some((t.0 as int, t.1 as int)) && i < t.0
                < t.1 <= v@.len(),
            None => season_token_at(v@, i as int) is None,
        },
{
    let n = v.len();
    if !(i < n && (v[i] == 'S' || v[i] == 's')) {
        return None;
    }
    let j = if eason_at(v, i + 1) {
        i + 6
    } else {
        i + 1
    };
    let k = find_seps_end(v, j);
    let m = find_digits_end(v, k);
    if m > k {
        proof {
            lemma_season_token_bounds(v@, i as int);
        }
        Some((k, m))
    } else {
        None
    }
}

fn find_last_season_token(v: &Vec<char>) -> (r: Option<(usize, usize)>)
    ensures
        match r {
            Some(t) => last_season_token(v@, 0) == Some((t.0 as int, t.1 as int)) && 0 <= t.0 < t.1
                <= v@.len(),
            None => last_season_token(v@, 0) is None,
        },
{
    let n = v.len();
    let mut i: usize = 0;
    let mut best: Option<(usize, usize)> = None;
    while i < n
        invariant
            i <= n,
            n == v@.len(),
            best is None ==> last_season_token(v@, 0) == last_season_token(v@, i as int),
            best matches Some(b) ==> b.0 < b.1 <= n && (match last_season_token(v@, i as int) {
                Some(u) => last_season_token(v@, 0) == Some(u),
                None => last_season_token(v@, 0) == Some((b.0 as int, b.1 as int)),
            }),
        decreases n - i,
    {
        match season_token_at_exec(v, i) {
            Some(t) => {
                best = Some(t);
                i = t.1;
            },
            None => {
                i = i + 1;
            },
        }
    }
    best
}

fn digit_pair_at_exec(v: &Vec<char>, k: usize) -> (r: Option<(usize, usize)>)
    ensures
        match r {
            Some(t) => digit_pair_at(v@, k as int) == Some((t.0 as int, t.1 as int)) && k == t.0
                < t.1 <= v@.len(),
            None => digit_pair_at(v@, k as int) is None,
        },
{
    let n = v.len();
    if !(k < n && ch_is_digit(v[k])) {
        return None;
    }
    if k + 1 < n && ch_is_digit(v[k + 1]) {
        if k + 2 >= n || v[k + 2] == '.' || v[k + 2] == '_' || v[k + 2] == '-' || !ch_is_word(
            v[k + 2],
        ) {
            Some((k, k + 2))
        } else {
            None
        }
    } else {
        if k + 1 >= n || v[k + 1] == '.' || v[k + 1] == '_' || v[k + 1] == '-' || !ch_is_word(
            v[k + 1],
        ) {
            Some((k, k + 1))
        } else {
            None
        }
    }
}

fn bare_episode_at_exec(v: &Vec<char>, i: usize) -> (r: Option<(usize, usize)>)
    ensures
        match r {
            Some(t) => bare_episode_at(v@, i as int) == Some((t.0 as int, t.1 as int)) && i == t.0
                < t.1 <= v@.len(),
            None => bare_episode_at(v@, i as int) is None,
        },
{
    let n = v.len();
    let before = i > 0 && i <= n && ch_is_word(v[i - 1]);
    let after = i < n && ch_is_word(v[i]);
    if before != after {
        digit_pair_at_exec(v, i)
    } else {
        None
    }
}

fn episode_token_at_exec(v: &Vec<char>, i: usize) -> (r: Option<(usize, usize)>)
    requires
        i < v@.len(),
    ensures
        match r {
            Some(t) => episode_token_at(v@, i as int) == Some((t.0 as int, t.1 as int)) && i <= t.0
                < t.1 <= v@.len(),
            None => episode_token_at(v@, i as int) is None,
        },
{
    let n = v.len();
    if i < n && (v[i] == 'E' || v[i] == 'e') {
        let j = if pisode_at(v, i + 1) {
            i + 7
        } else {
            i + 1
        };
        let k = find_ws_end(v, j);
        match digit_pair_at_exec(v, k) {
            Some(t) => Some(t),
            None => bare_episode_at_exec(v, i),
        }
    } else {
        bare_episode_at_exec(v, i)
    }
}

fn find_first_episode_token(v: &Vec<char>, start: usize) -> (r: Option<(usize, usize)>)
    requires
        start <= v@.len(),
    ensures
        match r {
            Some(t) => first_episode_token(v@, start as int) == Some((t.0 as int, t.1 as int))
                && start <= t.0 < t.1 <= v@.len(),
            None => first_episode_token(v@, start as int) is None,
        },
{
    let n = v.len();
    let mut i = start;
    while i < n
        invariant
            start <= i <= n,
            n == v@.len(),
            first_episode_token(v@, start as int) == first_episode_token(v@, i as int),
        decreases n - i,
    {
        match episode_token_at_exec(v, i) {
            Some(t) => {
                return Some(t);
            },
            None => {
                i = i + 1;
            },
        }
    }
    None
}

proof fn lemma_digits_value_nonneg(s: Seq<char>, from: int, to: int)
    requires
        forall|j: int| from <= j < to ==> is_ascii_digit(s[j]),
    ensures
        digits_value(s, from, to) >= 0,
    decreases to - from,
{
    if from < to {
        lemma_digits_value_nonneg(s, from, to - 1);
    }
}

proof fn lemma_digits_value_extend_ge(s: Seq<char>, from: int, k: int, to: int)
    requires
        from <= k <= to,
        forall|j: int| from <= j < to ==> is_ascii_digit(s[j]),
    ensures
        digits_value(s, from, to) >= digits_value(s, from, k),
    decreases to - k,
{
    if k < to {
        lemma_digits_value_extend_ge(s, from, k + 1, to);
        lemma_digits_value_nonneg(s, from, k);
    }
}

/// A two-digit-or-fewer number is below one hundred.
proof fn lemma_digit_pair_value(s: Seq<char>, from: int, to: int)
    requires
        0 <= from <= to <= s.len(),
        to - from <= 2,
        forall|j: int| from <= j < to ==> is_ascii_digit(s[j]),
    ensures
        0 <= digits_value(s, from, to) < 100,
{
    lemma_digits_value_nonneg(s, from, to);
    reveal_with_fuel(digits_value, 3);
    if to == from + 1 {
        assert(digits_value(s, from, to) == digit_value(s[from]));
    } else if to == from + 2 {
        assert(digits_value(s, from, to) == digit_value(s[from]) * 10 + digit_value(s[from + 1]));
    }
}

fn digits_to_i32(v: &Vec<char>, from: usize, to: usize) -> (r: Option<i32>)
    requires
        from <= to <= v@.len(),
        forall|j: int| from <= j < to ==> is_ascii_digit(v@[j]),
    ensures
        match r {
            Some(x) => 0 <= x && x as int == digits_value(v@, from as int, to as int),
            None => digits_value(v@, from as int, to as int) > i32::MAX,
        },
{
    let mut val: i64 = 0;
    let mut k = from;
    while k < to
        invariant
            from <= k <= to <= v@.len(),
            forall|j: int| from <= j < to ==> is_ascii_digit(v@[j]),
            0 <= val <= i32::MAX,
            val as int == digits_value(v@, from as int, k as int),
        decreases to - k,
    {
        let c = v[k];
        let d: i64 = (c as u32) as i64 - 48;
        let nv: i64 = val * 10 + d;
        proof {
            assert(is_ascii_digit(v@[k as int]));
            assert(nv as int == digits_value(v@, from as int, k as int + 1));
        }
        if nv > i32::MAX as i64 {
            proof {
                lemma_digits_value_extend_ge(v@, from as int, k as int + 1, to as int);
            }
            return None;
        }
        val = nv;
        k = k + 1;
    }
    Some(val as i32)
}

/// Parses a file path into its canonical season/episode key.
///
/// The parse follows [`spec_parse_episode`]: the last season token anywhere
/// in the path wins (so the filename overrides a parent directory), and the
/// episode number is the first episode token after it.
pub fn parse_episode_key(path: &str) -> (r: Result<EpisodeKey, ParseError>)
    ensures
        match r {
            Ok(k) => spec_parse_episode(path@) == Ok::<_, ParseError>(
                (k.season as int, k.episode as int),
            ) && k.wf(),
            Err(e) => spec_parse_episode(path@) == Err::<(int, int), ParseError>(e),
        },
{
    let v = to_chars(path);
    let st = match find_last_season_token(&v) {
        Some(st) => st,
        None => {
            return Err(ParseError::NotFound);
        },
    };
    let et = match find_first_episode_token(&v, st.1) {
        Some(et) => et,
        None => {
            return Err(ParseError::NotFound);
        },
    };
    proof {
        lemma_last_season_token_digits(v@, 0);
        lemma_first_episode_token_digits(v@, st.1 as int);
    }
    let season = match digits_to_i32(&v, st.0, st.1) {
        Some(x) => x,
        None => {
            return Err(ParseError::InvalidNumber);
        },
    };
    let episode = match digits_to_i32(&v, et.0, et.1) {
        Some(x) => x,
        None => {
            proof {
                lemma_digit_pair_value(v@, et.0 as int, et.1 as int);
            }
            return Err(ParseError::InvalidNumber);
        },
    };
    Ok(EpisodeKey { season, episode })
}

/// The digit range reported by the season scan holds only digits.
proof fn lemma_last_season_token_digits(s: Seq<char>, i: int)
    requires
        0 <= i,
        last_season_token(s, i) is Some,
    ensures
        ({
            let t = last_season_token(s, i)->0;
            &&& 0 <= t.0 <= t.1 <= s.len()
            &&& forall|j: int| t.0 <= j < t.1 ==> is_ascii_digit(s[j])
        }),
    decreases s.len() - i,
{
    if i < s.len() {
        match season_token_at(s, i) {
            Some(t) => {
                lemma_season_token_bounds(s, i);
                if last_season_token(s, t.1) is Some {
                    lemma_last_season_token_digits(s, t.1);
                }
            },
            None => {
                lemma_last_season_token_digits(s, i + 1);
            },
        }
    }
}

/// The digit range reported by an episode token holds only digits and spans
/// at most two characters.
proof fn lemma_episode_token_digits(s: Seq<char>, i: int)
    requires
        episode_token_at(s, i) is Some,
    ensures
        ({
            let t = episode_token_at(s, i)->0;
            &&& 0 <= t.0 <= t.1 <= s.len()
            &&& t.1 - t.0 <= 2
            &&& forall|j: int| t.0 <= j < t.1 ==> is_ascii_digit(s[j])
        }),
{
}

proof fn lemma_first_episode_token_digits(s: Seq<char>, i: int)
    requires
        first_episode_token(s, i) is Some,
    ensures
        ({
            let t = first_episode_token(s, i)->0;
            &&& 0 <= t.0 <= t.1 <= s.len()
            &&& t.1 - t.0 <= 2
            &&& forall|j: int| t.0 <= j < t.1 ==> is_ascii_digit(s[j])
        }),
    decreases s.len() - i,
{
    if i < s.len() {
        match episode_token_at(s, i) {
            Some(t) => {
                lemma_episode_token_digits(s, i);
            },
            None => {
                lemma_first_episode_token_digits(s, i + 1);
            },
        }
    }
}

// ---------------------------------------------------------------------------
// The render/parse round trip
// ---------------------------------------------------------------------------

proof fn lemma_decimal_digit_props(d: int)
    requires
        0 <= d < 10,
    ensures
        is_ascii_digit(decimal_digit(d)),
        digit_value(decimal_digit(d)) == d,
{
}

proof fn lemma_padded2_digits(n: int)
    requires
        0 <= n < 100,
    ensures
        padded2(n) =~= seq![decimal_digit(n / 10), decimal_digit(n % 10)],
{
    if n < 10 {
        assert(n / 10 == 0);
        assert(padded2(n) =~= seq!['0', decimal_digit(n)]);
    } else {
        reveal_with_fuel(crate::strutil::decimal_seq, 3);
        assert(padded2(n) =~= seq![decimal_digit(n / 10), decimal_digit(n % 10)]);
    }
}

/// A text without `S` or `s` holds no season token.
proof fn lemma_no_season_start(s: Seq<char>, i: int)
    requires
        0 <= i,
        forall|j: int| i <= j < s.len() ==> s[j] != 'S' && s[j] != 's',
    ensures
        last_season_token(s, i) is None,
    decreases s.len() - i,
{
    if i < s.len() {
        assert(season_token_at(s, i) is None);
        lemma_no_season_start(s, i + 1);
    }
}

/// Rendering a key and parsing it back is the identity: for any season and
/// episode below one hundred, the canonical `SxxEyy` text followed by any
/// tail that opens no new season marker — no `S` or `s`, and a first
/// character that closes the episode number, such as the `.` of an
/// extension — parses to exactly that season and episode.
pub proof fn lemma_render_parse_round_trip(season: int, episode: int, tail: Seq<char>)
    requires
        0 <= season < 100,
        0 <= episode < 100,
        forall|i: int| 0 <= i < tail.len() ==> tail[i] != 'S' && tail[i] != 's',
        tail.len() == 0 || tail[0] == '.' || tail[0] == '_' || tail[0] == '-' || !is_word_char(
            tail[0],
        ),
    ensures
        spec_parse_episode(spec_episode_id(season, episode) + tail) == Ok::<_, ParseError>(
            (season, episode),
        ),
{
    let a1 = decimal_digit(season / 10);
    let a2 = decimal_digit(season % 10);
    let b1 = decimal_digit(episode / 10);
    let b2 = decimal_digit(episode % 10);
    lemma_padded2_digits(season);
    lemma_padded2_digits(episode);
    lemma_decimal_digit_props(season / 10);
    lemma_decimal_digit_props(season % 10);
    lemma_decimal_digit_props(episode / 10);
    lemma_decimal_digit_props(episode % 10);
    let s = spec_episode_id(season, episode) + tail;
    assert(s =~= seq!['S', a1, a2, 'E', b1, b2] + tail);
    assert(s.len() == 6 + tail.len());
    assert(s[0] == 'S' && s[1] == a1 && s[2] == a2 && s[3] == 'E' && s[4] == b1 && s[5] == b2);
    assert(forall|j: int| 6 <= j < s.len() ==> s[j] == tail[j - 6]);
    // The season token: `S` at zero, digits at one and two.
    assert(!has_eason(s, 1));
    assert(seps_end(s, 1) == 1);
    assert(digits_end(s, 3) == 3);
    assert(digits_end(s, 2) == 3);
    assert(digits_end(s, 1) == 3);
    assert(season_token_at(s, 0) == Some((1int, 3int)));
    // No season token after it: `E` and digits and the tail hold no `S`.
    lemma_no_season_start(s, 3);
    assert(last_season_token(s, 0) == Some((1int, 3int)));
    // The digits spell the season back.
    reveal_with_fuel(digits_value, 4);
    assert(digits_value(s, 1, 3) == digit_value(a1) * 10 + digit_value(a2));
    assert(digits_value(s, 1, 3) == season);
    // The episode token: `E` at three, digits at four and five, the tail
    // closing them.
    assert(!has_pisode(s, 4));
    assert(ws_end(s, 4) == 4);
    assert(tail_boundary(s, 6));
    assert(digit_pair_at(s, 4) == Some((4int, 6int)));
    assert(episode_token_at(s, 3) == Some((4int, 6int)));
    assert(first_episode_token(s, 3) == Some((4int, 6int)));
    assert(digits_value(s, 4, 6) == episode);
}

// ---------------------------------------------------------------------------
// Directory/filename precedence
// ---------------------------------------------------------------------------
//
// A `/` can take part in no season or episode token, so a token lies either
// entirely in the directory part of a path or entirely in the file name.
// Because the scan takes the last season token, a file name that holds one
// makes the whole parse depend on the file name alone.

proof fn lemma_shift_seps_end(dir: Seq<char>, f: Seq<char>, j: int)
    requires
        0 <= j <= f.len(),
    ensures
        seps_end(dir + seq!['/'] + f, dir.len() + 1 + j) == dir.len() + 1 + seps_end(f, j),
    decreases f.len() - j,
{
    let c = dir + seq!['/'] + f;
    let off = dir.len() + 1;
    if j < f.len() {
        assert(c[off + j] == f[j]);
        if is_marker_sep(f[j]) {
            lemma_shift_seps_end(dir, f, j + 1);
        }
    }
}

proof fn lemma_shift_digits_end(dir: Seq<char>, f: Seq<char>, j: int)
    requires
        0 <= j <= f.len(),
    ensures
        digits_end(dir + seq!['/'] + f, dir.len() + 1 + j) == dir.len() + 1 + digits_end(f, j),
    decreases f.len() - j,
{
    let c = dir + seq!['/'] + f;
    let off = dir.len() + 1;
    if j < f.len() {
        assert(c[off + j] == f[j]);
        if is_ascii_digit(f[j]) {
            lemma_shift_digits_end(dir, f, j + 1);
        }
    }
}

proof fn lemma_shift_ws_end(dir: Seq<char>, f: Seq<char>, j: int)
    requires
        0 <= j <= f.len(),
    ensures
        ws_end(dir + seq!['/'] + f, dir.len() + 1 + j) == dir.len() + 1 + ws_end(f, j),
    decreases f.len() - j,
{
    let c = dir + seq!['/'] + f;
    let off = dir.len() + 1;
    if j < f.len() {
        assert(c[off + j] == f[j]);
        if is_space_char(f[j]) {
            lemma_shift_ws_end(dir, f, j + 1);
        }
    }
}

/// A token found in the file-name part of a path is the file name's own
/// token, shifted.
proof fn lemma_shift_season_token(dir: Seq<char>, f: Seq<char>, i: int)
    requires
        0 <= i,
    ensures
        season_token_at(dir + seq!['/'] + f, dir.len() + 1 + i) == (
        match season_token_at(f, i) {
            Some(t) => Some((dir.len() + 1 + t.0, dir.len() + 1 + t.1)),
            None => None::<(int, int)>,
        }),
{
    let c = dir + seq!['/'] + f;
    let off = dir.len() + 1;
    if i < f.len() {
        assert(c[off + i] == f[i]);
        if f[i] == 'S' || f[i] == 's' {
            assert(forall|x: int| 0 <= x < f.len() ==> c[off + x] == f[x]);
            assert(has_eason(c, off + i + 1) == has_eason(f, i + 1));
            let j = if has_eason(f, i + 1) {
                i + 6
            } else {
                i + 1
            };
            lemma_shift_seps_end(dir, f, j);
            let k = seps_end(f, j);
            lemma_seps_end_bounds(f, j);
            lemma_shift_digits_end(dir, f, k);
        }
    }
}

proof fn lemma_shift_word_boundary(dir: Seq<char>, f: Seq<char>, i: int)
    requires
        0 <= i <= f.len(),
    ensures
        word_boundary_at(dir + seq!['/'] + f, dir.len() + 1 + i) == word_boundary_at(f, i),
{
    let c = dir + seq!['/'] + f;
    let off = dir.len() + 1;
    if i == 0 {
        assert(c[off - 1] == '/');
        assert(!is_word_char('/'));
    } else {
        assert(c[off + i - 1] == f[i - 1]);
    }
    if i < f.len() {
        assert(c[off + i] == f[i]);
    }
}

proof fn lemma_shift_digit_pair(dir: Seq<char>, f: Seq<char>, k: int)
    requires
        0 <= k,
    ensures
        digit_pair_at(dir + seq!['/'] + f, dir.len() + 1 + k) == (
        match digit_pair_at(f, k) {
            Some(t) => Some((dir.len() + 1 + t.0, dir.len() + 1 + t.1)),
            None => None::<(int, int)>,
        }),
{
    let c = dir + seq!['/'] + f;
    let off = dir.len() + 1;
    assert(forall|x: int| 0 <= x < f.len() ==> c[off + x] == f[x]);
    assert(tail_boundary(c, off + k + 1) == tail_boundary(f, k + 1));
    assert(tail_boundary(c, off + k + 2) == tail_boundary(f, k + 2));
}

proof fn lemma_shift_episode_token(dir: Seq<char>, f: Seq<char>, i: int)
    requires
        0 <= i <= f.len(),
    ensures
        episode_token_at(dir + seq!['/'] + f, dir.len() + 1 + i) == (
        match episode_token_at(f, i) {
            Some(t) => Some((dir.len() + 1 + t.0, dir.len() + 1 + t.1)),
            None => None::<(int, int)>,
        }),
{
    let c = dir + seq!['/'] + f;
    let off = dir.len() + 1;
    lemma_shift_word_boundary(dir, f, i);
    lemma_shift_digit_pair(dir, f, i);
    if i < f.len() {
        assert(c[off + i] == f[i]);
        if f[i] == 'E' || f[i] == 'e' {
            assert(forall|x: int| 0 <= x < f.len() ==> c[off + x] == f[x]);
            assert(has_pisode(c, off + i + 1) == has_pisode(f, i + 1));
            let j = if has_pisode(f, i + 1) {
                i + 7
            } else {
                i + 1
            };
            if j <= f.len() {
                lemma_shift_ws_end(dir, f, j);
                lemma_ws_end_bounds(f, j);
                lemma_shift_digit_pair(dir, f, ws_end(f, j));
            }
        }
    }
}

proof fn lemma_shift_episode_scan(dir: Seq<char>, f: Seq<char>, i: int)
    requires
        0 <= i <= f.len(),
    ensures
        first_episode_token(dir + seq!['/'] + f, dir.len() + 1 + i) == (
        match first_episode_token(f, i) {
            Some(t) => Some((dir.len() + 1 + t.0, dir.len() + 1 + t.1)),
            None => None::<(int, int)>,
        }),
    decreases f.len() - i,
{
    lemma_shift_episode_token(dir, f, i);
    if i < f.len() {
        if episode_token_at(f, i) is None {
            lemma_shift_episode_scan(dir, f, i + 1);
        }
    }
}

proof fn lemma_shift_season_scan(dir: Seq<char>, f: Seq<char>, i: int)
    requires
        0 <= i <= f.len(),
    ensures
        last_season_token(dir + seq!['/'] + f, dir.len() + 1 + i) == (
        match last_season_token(f, i) {
            Some(t) => Some((dir.len() + 1 + t.0, dir.len() + 1 + t.1)),
            None => None::<(int, int)>,
        }),
    decreases f.len() - i,
{
    lemma_shift_season_token(dir, f, i);
    if i < f.len() {
        match season_token_at(f, i) {
            Some(t) => {
                lemma_season_token_bounds(f, i);
                lemma_shift_season_scan(dir, f, t.1);
            },
            None => {
                lemma_shift_season_scan(dir, f, i + 1);
            },
        }
    }
}

proof fn lemma_digits_end_stops(s: Seq<char>, k: int, m: int)
    requires
        0 <= k <= m < s.len(),
        !is_ascii_digit(s[m]),
    ensures
        digits_end(s, k) <= m,
    decreases m - k,
{
    if k < m && is_ascii_digit(s[k]) {
        lemma_digits_end_stops(s, k + 1, m);
    }
}

proof fn lemma_seps_end_stops(s: Seq<char>, k: int, m: int)
    requires
        0 <= k <= m < s.len(),
        !is_marker_sep(s[m]),
    ensures
        seps_end(s, k) <= m,
    decreases m - k,
{
    if k < m && is_marker_sep(s[k]) {
        lemma_seps_end_stops(s, k + 1, m);
    }
}

/// A season token that starts in the directory part ends before the `/`.
proof fn lemma_token_stays_left(dir: Seq<char>, f: Seq<char>, p: int)
    requires
        0 <= p < dir.len(),
        season_token_at(dir + seq!['/'] + f, p) is Some,
    ensures
        (season_token_at(dir + seq!['/'] + f, p)->0).1 <= dir.len(),
{
    let c = dir + seq!['/'] + f;
    let slash = dir.len() as int;
    assert(c[slash] == '/');
    let j = if has_eason(c, p + 1) {
        p + 6
    } else {
        p + 1
    };
    if has_eason(c, p + 1) && p + 1 <= slash < p + 6 {
        assert(c[slash] == 'e' || c[slash] == 'a' || c[slash] == 's' || c[slash] == 'o' || c[slash]
            == 'n');
        assert(false);
    }
    assert(j <= slash);
    lemma_seps_end_stops(c, j, slash);
    lemma_digits_end_stops(c, seps_end(c, j), slash);
}

/// When the file name holds a season token, scanning from anywhere at or
/// left of the `/` finds the file name's last token.
proof fn lemma_season_scan_crosses(dir: Seq<char>, f: Seq<char>, i: int)
    requires
        0 <= i <= dir.len() + 1,
        last_season_token(f, 0) is Some,
    ensures
        last_season_token(dir + seq!['/'] + f, i) == (
        match last_season_token(f, 0) {
            Some(t) => Some((dir.len() + 1 + t.0, dir.len() + 1 + t.1)),
            None => None::<(int, int)>,
        }),
    decreases dir.len() + 1 - i,
{
    let c = dir + seq!['/'] + f;
    let off = dir.len() + 1;
    if i == off {
        lemma_shift_season_scan(dir, f, 0);
    } else if i == off - 1 {
        assert(c[i] == '/');
        assert(season_token_at(c, i) is None);
        lemma_season_scan_crosses(dir, f, i + 1);
    } else {
        assert(c.len() == off + f.len() && f.len() >= 0);
        assert(i < c.len());
        match season_token_at(c, i) {
            Some(t) => {
                lemma_token_stays_left(dir, f, i);
                lemma_season_token_bounds(c, i);
                lemma_season_scan_crosses(dir, f, t.1);
            },
            None => {
                lemma_season_scan_crosses(dir, f, i + 1);
            },
        }
    }
}

proof fn lemma_shift_digits_value(dir: Seq<char>, f: Seq<char>, from: int, to: int)
    requires
        0 <= from <= to <= f.len(),
    ensures
        digits_value(dir + seq!['/'] + f, dir.len() + 1 + from, dir.len() + 1 + to) == digits_value(
            f,
            from,
            to,
        ),
    decreases to - from,
{
    let c = dir + seq!['/'] + f;
    let off = dir.len() + 1;
    if from < to {
        lemma_shift_digits_value(dir, f, from, to - 1);
        assert(c[off + to - 1] == f[to - 1]);
    }
}

/// The file name overrides the directory: for any directory prefix, a file
/// name that holds a season token of its own parses exactly as it would
/// alone.
pub proof fn lemma_filename_overrides_directory(dir: Seq<char>, f: Seq<char>)
    requires
        last_season_token(f, 0) is Some,
    ensures
        spec_parse_episode(dir + seq!['/'] + f) == spec_parse_episode(f),
{
    let c = dir + seq!['/'] + f;
    let off = dir.len() + 1;
    lemma_season_scan_crosses(dir, f, 0);
    let t = last_season_token(f, 0)->0;
    lemma_last_season_token_digits(f, 0);
    lemma_shift_episode_scan(dir, f, t.1);
    lemma_shift_digits_value(dir, f, t.0, t.1);
    match first_episode_token(f, t.1) {
        Some(e) => {
            lemma_first_episode_token_digits(f, t.1);
            lemma_shift_digits_value(dir, f, e.0, e.1);
        },
        None => {},
    }
}

/// Parses a file path and renders the found key as its canonical `SxxEyy`
/// string.
pub fn parse_episode_id(path: &str) -> (r: Result<String, ParseError>)
    ensures
        match r {
            Ok(t) => spec_parse_episode(path@) is Ok && t@ == spec_episode_id(
                spec_parse_episode(path@)->Ok_0.0,
                spec_parse_episode(path@)->Ok_0.1,
            ),
            Err(e) => spec_parse_episode(path@) == Err::<(int, int), ParseError>(e),
        },
{
    match parse_episode_key(path) {
        Ok(k) => Ok(episode_id(k.season, k.episode)),
        Err(e) => Err(e),
    }
}

} // verus!
