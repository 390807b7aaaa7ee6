//! Catalog metadata: shows, seasons, episodes and movies, and the episode
//! lookup map built once per organize run.
//!
//! A `Show` is assembled once from fetched metadata and read-only
//! afterwards.  [`Show::episodes`] flattens its seasons into a map keyed by
//! the canonical `SxxEyy` identifier; when the metadata repeats a key, the
//! later entry wins.

use vstd::prelude::*;

use crate::episode::{episode_id, spec_episode_id};
use crate::strutil::{all_ascii_digits, ch_is_digit, digits_value, is_ascii_digit, str_eq, to_chars};

verus! {

/// A single episode record, owned by a season.
#[derive(Debug, PartialEq, Eq)]
pub struct Episode {
    pub id: i32,
    pub season_number: i32,
    pub episode_number: i32,
    pub name: String,
    pub overview: String,
    pub air_date: String,
}

impl Episode {
    /// An explicit copy; unlike a derived clone, its contract says the copy
    /// equals the original.
    pub fn duplicate(&self) -> (r: Episode)
        ensures
            r == *self,
    {
        Episode {
            id: self.id,
            season_number: self.season_number,
            episode_number: self.episode_number,
            name: self.name.clone(),
            overview: self.overview.clone(),
            air_date: self.air_date.clone(),
        }
    }
}

/// One season of a show, with its episode list.
#[derive(Debug, PartialEq, Eq)]
pub struct Season {
    pub id: i32,
    pub season_number: i32,
    pub name: String,
    pub overview: String,
    pub air_date: String,
    pub episodes: Vec<Episode>,
}

impl Season {
    /// Season and episode numbers are never negative.
    pub open spec fn wf(&self) -> bool {
        &&& 0 <= self.season_number
        &&& forall|i: int|
            0 <= i < self.episodes@.len() ==> 0 <= (#[trigger] self.episodes@[i]).season_number && 0
                <= self.episodes@[i].episode_number
    }
}

/// The series-level record of a show, before its seasons are fetched.
#[derive(Debug, PartialEq, Eq)]
pub struct Series {
    pub id: i32,
    pub name: String,
    pub overview: String,
    pub first_air_date: String,
    pub number_of_episodes: i32,
    pub number_of_seasons: i32,
}

/// A complete show: the series record plus all its seasons, and the year
/// taken from the first-air date.
#[derive(Debug, PartialEq, Eq)]
pub struct Show {
    pub id: i32,
    pub name: String,
    pub overview: String,
    pub year: i32,
    pub first_air_date: String,
    pub number_of_episodes: i32,
    pub number_of_seasons: i32,
    pub seasons: Vec<Season>,
}

impl Show {
    /// The year is a calendar year and every season is well formed.
    pub open spec fn wf(&self) -> bool {
        &&& 0 <= self.year
        &&& forall|i: int| 0 <= i < self.seasons@.len() ==> (#[trigger] self.seasons@[i]).wf()
    }
}

/// A movie record.
#[derive(Debug, PartialEq, Eq)]
pub struct Movie {
    pub id: i32,
    pub title: String,
    pub overview: String,
    pub release_date: String,
    pub original_language: String,
}

// ---------------------------------------------------------------------------
// The year of a date string
// ---------------------------------------------------------------------------

/// The first index at or after `i` holding a `-`, or the length.
pub open spec fn dash_end(s: Seq<char>, i: int) -> int
    decreases s.len() - i,
{
    if 0 <= i < s.len() && s[i] != '-' {
        dash_end(s, i + 1)
    } else {
        i
    }
}

/// The year denoted by a digit run with an optional leading `+`, or `0` when
/// the text is empty, holds anything else, or overflows an `i32`.
pub open spec fn spec_parse_year(seg: Seq<char>) -> int {
    let body = if seg.len() > 0 && seg[0] == '+' {
        seg.drop_first()
    } else {
        seg
    };
    if body.len() == 0 || !all_ascii_digits(body) {
        0
    } else if digits_value(body, 0, body.len() as int) > i32::MAX {
        0
    } else {
        digits_value(body, 0, body.len() as int)
    }
}

/// The year of a date string: the text before the first `-`, read as a
/// number, with anything unreadable counting as year `0`.
pub open spec fn spec_year_of(date: Seq<char>) -> int {
    spec_parse_year(date.subrange(0, dash_end(date, 0)))
}

/// Reads the year from a `YYYY-MM-DD`-style date string; an unreadable or
/// missing year is `0`.
#[verifier::loop_isolation(false)]
pub fn year_from_date(date: &str) -> (r: i32)
    ensures
        r as int == spec_year_of(date@),
        0 <= r,
{
    let v = to_chars(date);
    let n = v.len();
    // Find the first dash.
    let mut e: usize = 0;
    while e < n && v[e] != '-'
        invariant
            e <= n,
            n == v@.len(),
            dash_end(v@, 0) == dash_end(v@, e as int),
        decreases n - e,
    {
        e = e + 1;
    }
    proof {
        assert(dash_end(v@, 0) == e as int);
    }
    let ghost seg = v@.subrange(0, e as int);
    let start: usize = if e > 0 && v[0] == '+' {
        1
    } else {
        0
    };
    proof {
        if e > 0 && v@[0] == '+' {
            assert(seg.drop_first() =~= v@.subrange(1, e as int));
        } else {
            assert(seg =~= v@.subrange(0, e as int));
        }
    }
    let ghost body = v@.subrange(start as int, e as int);
    if start == e {
        return 0;
    }
    // All characters of the body must be digits.
    let mut k = start;
    while k < e && ch_is_digit(v[k])
        invariant
            start <= k <= e <= n,
            n == v@.len(),
            forall|j: int| start <= j < k ==> is_ascii_digit(v@[j]),
        decreases e - k,
    {
        k = k + 1;
    }
    let ghost sb = if seg.len() > 0 && seg[0] == '+' {
        seg.drop_first()
    } else {
        seg
    };
    proof {
        assert(sb == body);
    }
    if k < e {
        proof {
            assert(!all_ascii_digits(sb)) by {
                assert(0 <= k - start < sb.len() && !is_ascii_digit(sb[k - start]));
            }
        }
        return 0;
    }
    proof {
        assert forall|j: int| 0 <= j < sb.len() implies is_ascii_digit(#[trigger] sb[j]) by {
            assert(sb[j] == v@[start + j]);
        }
        assert(all_ascii_digits(sb));
    }
    let mut val: i64 = 0;
    let mut m = start;
    while m < e
        invariant
            start <= m <= e <= n,
            n == v@.len(),
            forall|j: int| start <= j < e ==> is_ascii_digit(v@[j]),
            0 <= val <= i32::MAX,
            val as int == digits_value(v@, start as int, m as int),
        decreases e - m,
    {
        let c = v[m];
        let d: i64 = (c as u32) as i64 - 48;
        let nv: i64 = val * 10 + d;
        proof {
            assert(nv as int == digits_value(v@, start as int, m as int + 1));
        }
        if nv > i32::MAX as i64 {
            proof {
                lemma_digits_value_prefix_ge(v@, start as int, m as int + 1, e as int);
                lemma_digits_value_shift(v@, start as int, e as int);
            }
            return 0;
        }
        val = nv;
        m = m + 1;
    }
    proof {
        lemma_digits_value_shift(v@, start as int, e as int);
    }
    val as i32
}

// ---------------------------------------------------------------------------
// The episode lookup map
// ---------------------------------------------------------------------------

/// The keys of the entry list are pairwise distinct.
pub open spec fn distinct_keys(e: Seq<(String, Episode)>) -> bool {
    forall|i: int, j: int| 0 <= i < j < e.len() ==> (#[trigger] e[i]).0@ != (#[trigger] e[j]).0@
}

/// Every stored episode has non-negative season and episode numbers.
pub open spec fn entries_wf(e: Seq<(String, Episode)>) -> bool {
    forall|i: int|
        0 <= i < e.len() ==> 0 <= (#[trigger] e[i]).1.season_number && 0 <= e[i].1.episode_number
}

/// The map denoted by an entry list; a later entry overrides an earlier one
/// with the same key.
pub open spec fn map_of(e: Seq<(String, Episode)>) -> Map<Seq<char>, Episode>
    decreases e.len(),
{
    if e.len() == 0 {
        Map::empty()
    } else {
        map_of(e.drop_last()).insert(e.last().0@, e.last().1)
    }
}

/// A key is in the map exactly when some entry carries it.
proof fn lemma_map_of_contains(e: Seq<(String, Episode)>, k: Seq<char>)
    ensures
        map_of(e).dom().contains(k) <==> exists|i: int| 0 <= i < e.len() && (#[trigger] e[i]).0@
            == k,
    decreases e.len(),
{
    if e.len() > 0 {
        lemma_map_of_contains(e.drop_last(), k);
        if e.last().0@ == k {
            assert(e[e.len() - 1].0@ == k);
        } else {
            if exists|i: int| 0 <= i < e.len() && (#[trigger] e[i]).0@ == k {
                let i = choose|i: int| 0 <= i < e.len() && (#[trigger] e[i]).0@ == k;
                assert(e.drop_last()[i] == e[i]);
            }
        }
    }
}

/// Under distinct keys, the entry that carries a key gives its map value.
proof fn lemma_map_of_get(e: Seq<(String, Episode)>, i: int)
    requires
        distinct_keys(e),
        0 <= i < e.len(),
    ensures
        map_of(e).dom().contains(e[i].0@),
        map_of(e)[e[i].0@] == e[i].1,
    decreases e.len(),
{
    if i == e.len() - 1 {
    } else {
        lemma_map_of_get(e.drop_last(), i);
        assert(e.drop_last()[i] == e[i]);
    }
}

/// Under distinct keys, the map has exactly one element per entry.
proof fn lemma_map_of_len(e: Seq<(String, Episode)>)
    requires
        distinct_keys(e),
    ensures
        map_of(e).len() == e.len(),
        map_of(e).dom().finite(),
    decreases e.len(),
{
    if e.len() > 0 {
        lemma_map_of_len(e.drop_last());
        lemma_map_of_contains(e.drop_last(), e.last().0@);
        assert(forall|i: int|
            0 <= i < e.drop_last().len() ==> (#[trigger] e.drop_last()[i]) == e[i]);
        assert(!map_of(e.drop_last()).dom().contains(e.last().0@));
    }
}

/// Replacing the entry that carries a key is inserting over it.
proof fn lemma_map_of_update(e: Seq<(String, Episode)>, i: int, p: (String, Episode))
    requires
        distinct_keys(e),
        0 <= i < e.len(),
        e[i].0@ == p.0@,
    ensures
        map_of(e.update(i, p)) =~= map_of(e).insert(p.0@, p.1),
        distinct_keys(e.update(i, p)),
    decreases e.len(),
{
    let u = e.update(i, p);
    if i == e.len() - 1 {
        assert(u.drop_last() =~= e.drop_last());
        assert(u.last() == p);
    } else {
        lemma_map_of_update(e.drop_last(), i, p);
        assert(u.drop_last() =~= e.drop_last().update(i, p));
        assert(u.last() == e.last());
        assert(e.last().0@ != p.0@);
    }
}

/// The episode lookup map of a show: episode records keyed by the canonical
/// `SxxEyy` string.
pub struct EpisodeMap {
    entries: Vec<(String, Episode)>,
}

impl EpisodeMap {
    /// What the map holds: episode records keyed by their rendered episode
    /// identifier.
    pub closed spec fn contents(&self) -> Map<Seq<char>, Episode> {
        map_of(self.entries@)
    }

    #[verifier::type_invariant]
    spec fn inv(&self) -> bool {
        distinct_keys(self.entries@) && entries_wf(self.entries@)
    }

    /// The number of distinct episode keys.
    pub fn len(&self) -> (r: usize)
        ensures
            r == self.contents().len(),
    {
        proof {
            use_type_invariant(self);
            lemma_map_of_len(self.entries@);
        }
        self.entries.len()
    }

    /// Looks an episode up by its rendered `SxxEyy` key.
    pub fn get(&self, key: &str) -> (r: Option<&Episode>)
        ensures
            match r {
                Some(ep) => self.contents().dom().contains(key@) && *ep == self.contents()[key@]
                    && 0 <= ep.season_number && 0 <= ep.episode_number,
                None => !self.contents().dom().contains(key@),
            },
    {
        proof {
            use_type_invariant(self);
        }
        let n = self.entries.len();
        let mut i: usize = 0;
        while i < n
            invariant
                i <= n,
                n == self.entries@.len(),
                distinct_keys(self.entries@),
                entries_wf(self.entries@),
                forall|j: int| 0 <= j < i ==> (#[trigger] self.entries@[j]).0@ != key@,
            decreases n - i,
        {
            if str_eq(self.entries[i].0.as_str(), key) {
                proof {
                    lemma_map_of_get(self.entries@, i as int);
                }
                return Some(&self.entries[i].1);
            }
            i = i + 1;
        }
        proof {
            lemma_map_of_contains(self.entries@, key@);
        }
        None
    }

    /// Whether an episode with this key exists.
    pub fn contains_key(&self, key: &str) -> (r: bool)
        ensures
            r == self.contents().dom().contains(key@),
    {
        self.get(key).is_some()
    }
}

/// The episode map that a season list denotes: seasons in order, episodes in
/// order within each season, later entries overriding earlier ones.
pub open spec fn season_episodes_map(
    m: Map<Seq<char>, Episode>,
    sn: int,
    eps: Seq<Episode>,
) -> Map<Seq<char>, Episode>
    decreases eps.len(),
{
    if eps.len() == 0 {
        m
    } else {
        season_episodes_map(m, sn, eps.drop_last()).insert(
            spec_episode_id(sn, eps.last().episode_number as int),
            eps.last(),
        )
    }
}

/// The full episode map of a list of seasons.
pub open spec fn show_episode_map(seasons: Seq<Season>) -> Map<Seq<char>, Episode>
    decreases seasons.len(),
{
    if seasons.len() == 0 {
        Map::empty()
    } else {
        season_episodes_map(
            show_episode_map(seasons.drop_last()),
            seasons.last().season_number as int,
            seasons.last().episodes@,
        )
    }
}

fn find_key(entries: &Vec<(String, Episode)>, key: &String) -> (r: Option<usize>)
    ensures
        match r {
            Some(i) => i < entries@.len() && entries@[i as int].0@ == key@,
            None => forall|j: int| 0 <= j < entries@.len() ==> (#[trigger] entries@[j]).0@ != key@,
        },
{
    let n = entries.len();
    let mut i: usize = 0;
    while i < n
        invariant
            i <= n,
            n == entries@.len(),
            forall|j: int| 0 <= j < i ==> (#[trigger] entries@[j]).0@ != key@,
        decreases n - i,
    {
        if str_eq(entries[i].0.as_str(), key.as_str()) {
            return Some(i);
        }
        i = i + 1;
    }
    None
}

impl Show {
    /// Assembles a show from its series record and fetched seasons; the
    /// year is read from the first-air date.
    pub fn from_parts(series: Series, seasons: Vec<Season>) -> (r: Show)
        ensures
            r.id == series.id,
            r.name == series.name,
            r.overview == series.overview,
            r.year as int == spec_year_of(series.first_air_date@),
            0 <= r.year,
            r.first_air_date == series.first_air_date,
            r.number_of_episodes == series.number_of_episodes,
            r.number_of_seasons == series.number_of_seasons,
            r.seasons == seasons,
    {
        let year = year_from_date(series.first_air_date.as_str());
        Show {
            id: series.id,
            name: series.name,
            overview: series.overview,
            year,
            first_air_date: series.first_air_date,
            number_of_episodes: series.number_of_episodes,
            number_of_seasons: series.number_of_seasons,
            seasons,
        }
    }

    /// Builds the episode lookup map of this show: every episode of every
    /// season, keyed by `S{season:02}E{episode:02}` with the season's own
    /// number, later seasons and episodes overriding earlier ones that
    /// render to the same key.
    #[verifier::loop_isolation(false)]
    pub fn episodes(&self) -> (r: EpisodeMap)
        requires
            self.wf(),
        ensures
            r.contents() == show_episode_map(self.seasons@),
    {
        let mut entries: Vec<(String, Episode)> = Vec::new();
        let sn_count = self.seasons.len();
        let mut si: usize = 0;
        proof {
            assert(self.seasons@.subrange(0, 0) =~= Seq::<Season>::empty());
        }
        while si < sn_count
            invariant
                si <= sn_count,
                distinct_keys(entries@),
                entries_wf(entries@),
                map_of(entries@) == show_episode_map(self.seasons@.subrange(0, si as int)),
            decreases sn_count - si,
        {
            let season = &self.seasons[si];
            let sn = season.season_number;
            let ep_count = season.episodes.len();
            let mut ei: usize = 0;
            proof {
                assert(season.episodes@.subrange(0, 0) =~= Seq::<Episode>::empty());
            }
            while ei < ep_count
                invariant
                    ei <= ep_count,
                    distinct_keys(entries@),
                    entries_wf(entries@),
                    map_of(entries@) == season_episodes_map(
                        show_episode_map(self.seasons@.subrange(0, si as int)),
                        sn as int,
                        season.episodes@.subrange(0, ei as int),
                    ),
                decreases ep_count - ei,
            {
                let ep = &season.episodes[ei];
                let key = episode_id(sn, ep.episode_number);
                let dup = ep.duplicate();
                let ghost before = entries@;
                match find_key(&entries, &key) {
                    Some(at) => {
                        proof {
                            lemma_map_of_update(before, at as int, (key, dup));
                        }
                        entries[at] = (key, dup);
                    },
                    None => {
                        entries.push((key, dup));
                        proof {
                            assert(entries@.drop_last() =~= before);
                        }
                    },
                }
                proof {
                    assert(season.episodes@.subrange(0, ei + 1 as int).drop_last()
                        =~= season.episodes@.subrange(0, ei as int));
                    assert(map_of(entries@) == season_episodes_map(
                        show_episode_map(self.seasons@.subrange(0, si as int)),
                        sn as int,
                        season.episodes@.subrange(0, ei + 1 as int),
                    ));
                }
                ei = ei + 1;
            }
            proof {
                assert(season.episodes@.subrange(0, ep_count as int) =~= season.episodes@);
                assert(self.seasons@.subrange(0, si + 1 as int).drop_last() =~= self.seasons@
                    .subrange(0, si as int));
            }
            si = si + 1;
        }
        proof {
            assert(self.seasons@.subrange(0, sn_count as int) =~= self.seasons@);
        }
        EpisodeMap { entries }
    }
}

proof fn lemma_digits_value_nonneg(s: Seq<char>, from: int, to: int)
    requires
        forall|j: int| from <= j < to ==> is_ascii_digit(s[j]),
    ensures
        digits_value(s, from, to) >= 0,
    decreases to - from,
{
    if from < to {
        lemma_digits_value_nonneg(s, from, to - 1);
    }
}

proof fn lemma_digits_value_prefix_ge(s: Seq<char>, from: int, k: int, to: int)
    requires
        from <= k <= to,
        forall|j: int| from <= j < to ==> is_ascii_digit(s[j]),
    ensures
        digits_value(s, from, to) >= digits_value(s, from, k),
    decreases to - k,
{
    if k < to {
        lemma_digits_value_prefix_ge(s, from, k + 1, to);
        lemma_digits_value_nonneg(s, from, k);
    }
}

/// The value of a digit run does not depend on where in the surrounding text
/// it sits.
proof fn lemma_digits_value_shift(s: Seq<char>, from: int, to: int)
    requires
        0 <= from <= to <= s.len(),
    ensures
        digits_value(s.subrange(from, to), 0, to - from) == digits_value(s, from, to),
    decreases to - from,
{
    if from < to {
        lemma_digits_value_shift(s, from, to - 1);
        assert(s.subrange(from, to - 1) =~= s.subrange(from, to).subrange(0, to - 1 - from));
        assert(digits_value(s.subrange(from, to), 0, to - 1 - from) == digits_value(
            s.subrange(from, to - 1),
            0,
            to - 1 - from,
        )) by {
            lemma_digits_value_ignores_tail(
                s.subrange(from, to),
                s.subrange(from, to - 1),
                0,
                to - 1 - from,
            );
        }
    }
}

/// The value of `s[from .. to]` depends only on those characters.
proof fn lemma_digits_value_ignores_tail(a: Seq<char>, b: Seq<char>, from: int, to: int)
    requires
        0 <= from,
        to <= a.len(),
        to <= b.len(),
        forall|j: int| from <= j < to ==> #[trigger] a[j] == b[j],
    ensures
        digits_value(a, from, to) == digits_value(b, from, to),
    decreases to - from,
{
    if from < to {
        lemma_digits_value_ignores_tail(a, b, from, to - 1);
    }
}

} // verus!
