//! The transaction planner: maps each eligible media file to a destination
//! path built from catalog metadata, skips what is already in place, and
//! rejects any plan in which two sources would land on the same destination.
//!
//! The planner works on plain path strings.  The caller walks the source
//! tree (in a deterministic order of its choosing), hands the planner the
//! file paths it found, and tells it which candidate destinations already
//! exist on disk; the planner decides everything else.  Its one strict
//! consistency invariant: a successful plan is an injective mapping from
//! sources to destinations.

use vstd::prelude::*;
use vstd::string::StringExecFns;

use crate::catalog::{show_episode_map, spec_year_of, Episode, EpisodeMap, Movie, Show};
use crate::episode::{episode_id, parse_episode_key, spec_episode_id, spec_parse_episode};
use crate::paths::{spec_join, spec_parent};
use crate::strutil::{
    decimal_str, padded2, push_char, push_count, push_number, push_padded2, str_eq, to_chars,
};
use crate::video::{parse_extension, spec_parse_extension};

verus! {

/// Why planning failed.  Ambiguity about where confirmed files should go is
/// always fatal: silently picking either destination would lose data.
#[derive(Debug, PartialEq, Eq)]
pub enum PlanError {
    /// A parsed episode key has no corresponding catalog entry.
    MetadataMismatch { key: String },
    /// Two sources map to the same destination.
    AmbiguousOutput { destination: String },
    /// More than one primary video candidate where exactly one is required.
    AmbiguousMovieSource { count: usize },
    /// No target directory could be determined.
    MissingTarget,
}

/// The spec-level shape of a planning failure.
pub enum PlanFault {
    Mismatch { key: Seq<char> },
    DuplicateDestination { destination: Seq<char> },
    AmbiguousSource { count: int },
    NoTarget,
}

/// An executable error carries the same information as its spec-level shape.
pub open spec fn error_matches(e: PlanError, f: PlanFault) -> bool {
    match (e, f) {
        (PlanError::MetadataMismatch { key }, PlanFault::Mismatch { key: k }) => key@ == k,
        (
            PlanError::AmbiguousOutput { destination },
            PlanFault::DuplicateDestination { destination: d },
        ) => destination@ == d,
        (
            PlanError::AmbiguousMovieSource { count },
            PlanFault::AmbiguousSource { count: c },
        ) => count == c,
        (PlanError::MissingTarget, PlanFault::NoTarget) => true,
        _ => false,
    }
}

impl PlanError {
    /// The error rendered as a diagnostic line, naming the offending key,
    /// path or count.
    pub fn message(&self) -> (r: String)
        ensures
            match self {
                PlanError::MetadataMismatch { key } => r@ == "Unable to get metadata for \""@
                    + key@ + "\""@,
                PlanError::AmbiguousOutput { destination } => r@
                    == "Multiple input files map to the same output: "@ + destination@,
                PlanError::AmbiguousMovieSource { count } => r@
                    == "Expected exactly one video file, found "@ + decimal_str(*count as int),
                PlanError::MissingTarget => r@ == "Failed to determine target"@,
            },
    {
        let mut out = String::new();
        match self {
            PlanError::MetadataMismatch { key } => {
                out.append("Unable to get metadata for \"");
                out.append(key.as_str());
                out.append("\"");
            },
            PlanError::AmbiguousOutput { destination } => {
                out.append("Multiple input files map to the same output: ");
                out.append(destination.as_str());
            },
            PlanError::AmbiguousMovieSource { count } => {
                out.append("Expected exactly one video file, found ");
                push_count(&mut out, *count);
            },
            PlanError::MissingTarget => {
                out.append("Failed to determine target");
            },
        }
        out
    }
}

/// One step of a plan: move, copy or link `source` to `destination`.
#[derive(Debug, PartialEq, Eq)]
pub struct PendingOperation {
    pub source: String,
    pub destination: String,
}

/// The plan as plain text pairs.
pub open spec fn op_pairs(ops: Seq<PendingOperation>) -> Seq<(Seq<char>, Seq<char>)> {
    ops.map_values(|o: PendingOperation| (o.source@, o.destination@))
}

// ---------------------------------------------------------------------------
// Sanitization
// ---------------------------------------------------------------------------

/// What the filename sanitizer returns for a given name.
pub uninterp spec fn sanitized_of(s: Seq<char>) -> Seq<char>;

/// Relies on `sanitize_filename::sanitize_with_options`, with options fixed
/// (POSIX rules, truncation on, empty replacement) so that the result is a
/// function of the name alone: strips characters that are unsafe in a file
/// name.
#[verifier::external_body]
fn sanitize_name(s: &str) -> (r: String)
    ensures
        r@ == sanitized_of(s@),
{
    sanitize_filename::sanitize_with_options(
        s,
        sanitize_filename::Options { windows: false, truncate: true, replacement: "" },
    )
}

// ---------------------------------------------------------------------------
// Destination paths
// ---------------------------------------------------------------------------

/// `"{name} ({year})"`, the directory title of a show or movie.
pub open spec fn spec_title_with_year(name: Seq<char>, year: int) -> Seq<char> {
    name + " ("@ + decimal_str(year) + ")"@
}

fn build_title_with_year(name: &str, year: i32) -> (r: String)
    requires
        0 <= year,
    ensures
        r@ == spec_title_with_year(name@, year as int),
{
    let mut out = String::new();
    out.append(name);
    out.append(" (");
    push_number(&mut out, year);
    out.append(")");
    proof {
        assert(out@ =~= spec_title_with_year(name@, year as int));
    }
    out
}

/// `"Season {:02}"`, the per-season directory name.
pub open spec fn spec_season_dir(season: int) -> Seq<char> {
    "Season "@ + padded2(season)
}

fn build_season_dir(season: i32) -> (r: String)
    requires
        0 <= season,
    ensures
        r@ == spec_season_dir(season as int),
{
    let mut out = String::new();
    out.append("Season ");
    push_padded2(&mut out, season);
    proof {
        assert(out@ =~= spec_season_dir(season as int));
    }
    out
}

/// `"{show} - {SxxEyy} - {episode}.{ext}"`, the canonical episode file name
/// before sanitization.
pub open spec fn spec_tv_file_name(
    show_name: Seq<char>,
    key: Seq<char>,
    episode_name: Seq<char>,
    ext: Seq<char>,
) -> Seq<char> {
    show_name + " - "@ + key + " - "@ + episode_name + "."@ + ext
}

fn build_tv_file_name(show_name: &str, key: &str, episode_name: &str, ext: &str) -> (r: String)
    ensures
        r@ == spec_tv_file_name(show_name@, key@, episode_name@, ext@),
{
    let mut out = String::new();
    out.append(show_name);
    out.append(" - ");
    out.append(key);
    out.append(" - ");
    out.append(episode_name);
    out.append(".");
    out.append(ext);
    proof {
        assert(out@ =~= spec_tv_file_name(show_name@, key@, episode_name@, ext@));
    }
    out
}

/// `"{title} ({year}).{ext}"`, the canonical movie file name before
/// sanitization.
pub open spec fn spec_movie_file_name(title: Seq<char>, year: int, ext: Seq<char>) -> Seq<char> {
    spec_title_with_year(title, year) + "."@ + ext
}

fn build_movie_file_name(title: &str, year: i32, ext: &str) -> (r: String)
    requires
        0 <= year,
    ensures
        r@ == spec_movie_file_name(title@, year as int, ext@),
{
    let mut out = build_title_with_year(title, year);
    out.append(".");
    out.append(ext);
    proof {
        assert(out@ =~= spec_movie_file_name(title@, year as int, ext@));
    }
    out
}

/// Joins a path and a relative component with `/`.
pub fn path_join(a: &str, b: &str) -> (r: String)
    ensures
        r@ == spec_join(a@, b@),
{
    let v = to_chars(a);
    let mut out = String::new();
    out.append(a);
    if v.len() > 0 {
        if v[v.len() - 1] != '/' {
            push_char(&mut out, '/');
        }
    }
    out.append(b);
    proof {
        if a@.len() == 0 {
            assert(out@ =~= b@);
        } else if a@.last() == '/' {
            assert(out@ =~= a@ + b@);
        } else {
            assert(out@ =~= a@ + seq!['/'] + b@);
        }
    }
    out
}

/// The destination of one episode file: target, sanitized show title with
/// year, season directory, sanitized canonical file name.
pub open spec fn spec_tv_destination(
    target: Seq<char>,
    show_name: Seq<char>,
    year: int,
    ep: Episode,
    key: Seq<char>,
    ext: Seq<char>,
) -> Seq<char> {
    spec_join(
        spec_join(
            spec_join(target, sanitized_of(spec_title_with_year(show_name, year))),
            spec_season_dir(ep.season_number as int),
        ),
        sanitized_of(spec_tv_file_name(show_name, key, ep.name@, ext)),
    )
}

/// The destination of one movie file: target, sanitized title with year,
/// sanitized canonical file name.
pub open spec fn spec_movie_destination(
    target: Seq<char>,
    title: Seq<char>,
    year: int,
    ext: Seq<char>,
) -> Seq<char> {
    spec_join(
        spec_join(target, sanitized_of(spec_title_with_year(title, year))),
        sanitized_of(spec_movie_file_name(title, year, ext)),
    )
}

// ---------------------------------------------------------------------------
// Per-entry decisions
// ---------------------------------------------------------------------------

/// What the planner decides for one walked file.
#[derive(Debug, PartialEq, Eq)]
pub enum EntryOutcome {
    /// Not a media file: skipped silently.
    NotMedia,
    /// A media file without a readable episode key: skipped with a notice.
    Unparsable,
    /// An eligible file and where it belongs.
    Destination(String),
}

/// The spec-level decision for one file under TV organization.
pub enum TvEntrySpec {
    NotMedia,
    Unparsable,
    Mismatch(Seq<char>),
    Dest(Seq<char>),
}

/// The TV decision: classify the extension, parse the episode key, look it
/// up, and build the destination.  A missing catalog entry is a hard fault;
/// an unparsable file is not.
pub open spec fn spec_tv_entry(path: Seq<char>, show: Show, target: Seq<char>) -> TvEntrySpec {
    match spec_parse_extension(path) {
        None => TvEntrySpec::NotMedia,
        Some(ext) => match spec_parse_episode(path) {
            Err(_) => TvEntrySpec::Unparsable,
            Ok(p) => {
                let key = spec_episode_id(p.0, p.1);
                let m = show_episode_map(show.seasons@);
                if !m.dom().contains(key) {
                    TvEntrySpec::Mismatch(key)
                } else {
                    TvEntrySpec::Dest(
                        spec_tv_destination(target, show.name@, show.year as int, m[key], key, ext),
                    )
                }
            },
        },
    }
}

/// Decides one file under TV organization: the map must be the show's own
/// episode map.
pub fn tv_entry(path: &str, show: &Show, map: &EpisodeMap, target: &str) -> (r: Result<
    EntryOutcome,
    PlanError,
>)
    requires
        show.wf(),
        map.contents() == show_episode_map(show.seasons@),
    ensures
        match r {
            Ok(EntryOutcome::NotMedia) => spec_tv_entry(path@, *show, target@)
                is NotMedia,
            Ok(EntryOutcome::Unparsable) => spec_tv_entry(path@, *show, target@)
                is Unparsable,
            Ok(EntryOutcome::Destination(d)) => spec_tv_entry(path@, *show, target@)
                == TvEntrySpec::Dest(d@),
            Err(PlanError::MetadataMismatch { key }) => spec_tv_entry(path@, *show, target@)
                == TvEntrySpec::Mismatch(key@),
            Err(_) => false,
        },
{
    let ext = match parse_extension(path) {
        None => {
            return Ok(EntryOutcome::NotMedia);
        },
        Some(e) => e,
    };
    let k = match parse_episode_key(path) {
        Err(_) => {
            return Ok(EntryOutcome::Unparsable);
        },
        Ok(k) => k,
    };
    let key = episode_id(k.season, k.episode);
    let ep = match map.get(key.as_str()) {
        None => {
            return Err(PlanError::MetadataMismatch { key });
        },
        Some(ep) => ep,
    };
    let title = build_title_with_year(show.name.as_str(), show.year);
    let title_dir = sanitize_name(title.as_str());
    let season_dir = build_season_dir(ep.season_number);
    let file_name = build_tv_file_name(
        show.name.as_str(),
        key.as_str(),
        ep.name.as_str(),
        ext.as_str(),
    );
    let file_name_s = sanitize_name(file_name.as_str());
    let d0 = path_join(target, title_dir.as_str());
    let d1 = path_join(d0.as_str(), season_dir.as_str());
    let d2 = path_join(d1.as_str(), file_name_s.as_str());
    Ok(EntryOutcome::Destination(d2))
}

/// The movie decision: every eligible media file belongs at the sanitized
/// title-with-year path; anything else is skipped silently.
pub open spec fn spec_movie_entry(
    path: Seq<char>,
    title: Seq<char>,
    year: int,
    target: Seq<char>,
) -> Option<Seq<char>> {
    match spec_parse_extension(path) {
        None => None,
        Some(ext) => Some(spec_movie_destination(target, title, year, ext)),
    }
}

// ---------------------------------------------------------------------------
// Assembling a plan
// ---------------------------------------------------------------------------

/// The views of a list of path strings.
pub open spec fn path_views(v: Seq<String>) -> Seq<Seq<char>> {
    v.map_values(|s: String| s@)
}

/// The set of path texts in a list of strings.
pub open spec fn strings_set(v: Seq<String>) -> Set<Seq<char>> {
    Set::new(|d: Seq<char>| exists|i: int| 0 <= i < v.len() && v[i]@ == d)
}

/// Some pair in `acc` already has this destination.
pub open spec fn has_dest(acc: Seq<(Seq<char>, Seq<char>)>, d: Seq<char>) -> bool {
    exists|j: int| 0 <= j < acc.len() && acc[j].1 == d
}

/// The target root: the explicit one, or the source's parent.
pub open spec fn resolved_target(target: Option<Seq<char>>, root: Seq<char>) -> Option<Seq<char>> {
    match target {
        Some(t) => Some(t),
        None => spec_parent(root),
    }
}

/// The TV planning fold over the walked paths, from position `i` with the
/// pairs gathered so far.  A pair is added when the file is eligible, its
/// destination differs from its source and does not exist yet; a repeated
/// destination aborts the whole plan.
pub open spec fn spec_plan_tv_from(
    paths: Seq<Seq<char>>,
    show: Show,
    target: Seq<char>,
    existing: Set<Seq<char>>,
    i: int,
    acc: Seq<(Seq<char>, Seq<char>)>,
) -> Result<Seq<(Seq<char>, Seq<char>)>, PlanFault>
    decreases paths.len() - i,
{
    if i < 0 || i >= paths.len() {
        Ok(acc)
    } else {
        match spec_tv_entry(paths[i], show, target) {
            TvEntrySpec::NotMedia => spec_plan_tv_from(paths, show, target, existing, i + 1, acc),
            TvEntrySpec::Unparsable => spec_plan_tv_from(paths, show, target, existing, i + 1, acc),
            TvEntrySpec::Mismatch(k) => Err(PlanFault::Mismatch { key: k }),
            TvEntrySpec::Dest(d) => {
                if paths[i] != d && !existing.contains(d) {
                    if has_dest(acc, d) {
                        Err(PlanFault::DuplicateDestination { destination: d })
                    } else {
                        spec_plan_tv_from(
                            paths,
                            show,
                            target,
                            existing,
                            i + 1,
                            acc.push((paths[i], d)),
                        )
                    }
                } else {
                    spec_plan_tv_from(paths, show, target, existing, i + 1, acc)
                }
            },
        }
    }
}

/// The whole TV plan: resolve the target, then fold over the paths.
pub open spec fn spec_plan_tv(
    paths: Seq<Seq<char>>,
    show: Show,
    target: Option<Seq<char>>,
    root: Seq<char>,
    existing: Set<Seq<char>>,
) -> Result<Seq<(Seq<char>, Seq<char>)>, PlanFault> {
    match resolved_target(target, root) {
        None => Err(PlanFault::NoTarget),
        Some(t) => spec_plan_tv_from(paths, show, t, existing, 0, Seq::empty()),
    }
}

/// The movie planning fold: every eligible file maps to the one canonical
/// destination per extension; the same skip and collision rules apply.
pub open spec fn spec_plan_movie_from(
    paths: Seq<Seq<char>>,
    title: Seq<char>,
    year: int,
    target: Seq<char>,
    existing: Set<Seq<char>>,
    i: int,
    acc: Seq<(Seq<char>, Seq<char>)>,
) -> Result<Seq<(Seq<char>, Seq<char>)>, PlanFault>
    decreases paths.len() - i,
{
    if i < 0 || i >= paths.len() {
        Ok(acc)
    } else {
        match spec_movie_entry(paths[i], title, year, target) {
            None => spec_plan_movie_from(paths, title, year, target, existing, i + 1, acc),
            Some(d) => {
                if paths[i] != d && !existing.contains(d) {
                    if has_dest(acc, d) {
                        Err(PlanFault::DuplicateDestination { destination: d })
                    } else {
                        spec_plan_movie_from(
                            paths,
                            title,
                            year,
                            target,
                            existing,
                            i + 1,
                            acc.push((paths[i], d)),
                        )
                    }
                } else {
                    spec_plan_movie_from(paths, title, year, target, existing, i + 1, acc)
                }
            },
        }
    }
}

/// The whole movie plan.
pub open spec fn spec_plan_movie(
    paths: Seq<Seq<char>>,
    movie: Movie,
    target: Option<Seq<char>>,
    root: Seq<char>,
    existing: Set<Seq<char>>,
) -> Result<Seq<(Seq<char>, Seq<char>)>, PlanFault> {
    match resolved_target(target, root) {
        None => Err(PlanFault::NoTarget),
        Some(t) => spec_plan_movie_from(
            paths,
            movie.title@,
            spec_year_of(movie.release_date@),
            t,
            existing,
            0,
            Seq::empty(),
        ),
    }
}

/// A primary video candidate: an eligible media file that is not a
/// subtitle.
pub open spec fn is_primary_video(path: Seq<char>) -> bool {
    match spec_parse_extension(path) {
        Some(e) => e != "srt"@,
        None => false,
    }
}

/// How many primary video candidates the walked paths hold, from `i` on.
pub open spec fn primary_count_from(paths: Seq<Seq<char>>, i: int) -> int
    decreases paths.len() - i,
{
    if i < 0 || i >= paths.len() {
        0
    } else {
        (if is_primary_video(paths[i]) {
            1int
        } else {
            0int
        }) + primary_count_from(paths, i + 1)
    }
}

/// The strict movie plan: exactly one primary video file may be present;
/// more than one is rejected with their count.  Ancillary files with
/// distinct extensions, such as subtitles, are exempt from the count.
pub open spec fn spec_plan_movie_strict(
    paths: Seq<Seq<char>>,
    movie: Movie,
    target: Option<Seq<char>>,
    root: Seq<char>,
    existing: Set<Seq<char>>,
) -> Result<Seq<(Seq<char>, Seq<char>)>, PlanFault> {
    if primary_count_from(paths, 0) > 1 {
        Err(PlanFault::AmbiguousSource { count: primary_count_from(paths, 0) })
    } else {
        spec_plan_movie(paths, movie, target, root, existing)
    }
}

fn contains_str(v: &Vec<String>, d: &str) -> (r: bool)
    ensures
        r == strings_set(v@).contains(d@),
{
    let n = v.len();
    let mut i: usize = 0;
    while i < n
        invariant
            i <= n,
            n == v@.len(),
            forall|j: int| 0 <= j < i ==> (#[trigger] v@[j])@ != d@,
        decreases n - i,
    {
        if str_eq(v[i].as_str(), d) {
            return true;
        }
        i = i + 1;
    }
    false
}

fn ops_contain_dest(ops: &Vec<PendingOperation>, d: &str) -> (r: bool)
    ensures
        r == has_dest(op_pairs(ops@), d@),
{
    let n = ops.len();
    let mut i: usize = 0;
    while i < n
        invariant
            i <= n,
            n == ops@.len(),
            forall|j: int| 0 <= j < i ==> (#[trigger] ops@[j]).destination@ != d@,
        decreases n - i,
    {
        if str_eq(ops[i].destination.as_str(), d) {
            proof {
                assert(op_pairs(ops@)[i as int].1 == d@);
            }
            return true;
        }
        i = i + 1;
    }
    proof {
        assert forall|j: int| 0 <= j < op_pairs(ops@).len() implies (#[trigger] op_pairs(
            ops@,
        )[j]).1 != d@ by {
            assert(ops@[j].destination@ != d@);
        }
    }
    false
}

/// No two operations share a destination.
pub open spec fn distinct_destinations(ops: Seq<PendingOperation>) -> bool {
    forall|a: int, b: int|
        0 <= a < b < ops.len() ==> (#[trigger] ops[a]).destination@ != (
        #[trigger] ops[b]).destination@
}

/// Computes the TV plan for the walked file paths, in their order.
///
/// `existing` lists the candidate destinations that already exist on disk;
/// `target` is the explicit target root, defaulting to the source root's
/// parent.  On success the plan maps distinct sources to pairwise distinct
/// destinations.
#[verifier::loop_isolation(false)]
pub fn plan_tv(
    sources: &Vec<String>,
    existing: &Vec<String>,
    show: &Show,
    target: Option<&String>,
    source_root: &String,
) -> (r: Result<Vec<PendingOperation>, PlanError>)
    requires
        show.wf(),
    ensures
        ({
            let sp = spec_plan_tv(
                path_views(sources@),
                *show,
                match target {
                    Some(t) => Some(t@),
                    None => None,
                },
                source_root@,
                strings_set(existing@),
            );
            match r {
                Ok(ops) => sp == Ok::<_, PlanFault>(op_pairs(ops@)) && distinct_destinations(ops@),
                Err(e) => sp is Err && error_matches(e, sp->Err_0),
            }
        }),
{
    let t: String = match target {
        Some(t) => t.clone(),
        None => match crate::paths::parent_of(source_root.as_str()) {
            Some(p) => p,
            None => {
                return Err(PlanError::MissingTarget);
            },
        },
    };
    let map = show.episodes();
    let ghost paths = path_views(sources@);
    let ghost ex = strings_set(existing@);
    let n = sources.len();
    let mut ops: Vec<PendingOperation> = Vec::new();
    let mut i: usize = 0;
    proof {
        assert(op_pairs(ops@) =~= Seq::<(Seq<char>, Seq<char>)>::empty());
    }
    while i < n
        invariant
            i <= n,
            map.contents() == show_episode_map(show.seasons@),
            spec_plan_tv_from(paths, *show, t@, ex, 0, Seq::empty()) == spec_plan_tv_from(
                paths,
                *show,
                t@,
                ex,
                i as int,
                op_pairs(ops@),
            ),
            distinct_destinations(ops@),
        decreases n - i,
    {
        let src = &sources[i];
        proof {
            assert(paths[i as int] == sources@[i as int]@);
        }
        match tv_entry(src.as_str(), show, &map, t.as_str()) {
            Err(e) => {
                return Err(e);
            },
            Ok(EntryOutcome::NotMedia) => {},
            Ok(EntryOutcome::Unparsable) => {},
            Ok(EntryOutcome::Destination(d)) => {
                if !str_eq(src.as_str(), d.as_str()) && !contains_str(existing, d.as_str()) {
                    if ops_contain_dest(&ops, d.as_str()) {
                        return Err(PlanError::AmbiguousOutput { destination: d });
                    }
                    let ghost before = ops@;
                    ops.push(PendingOperation { source: src.clone(), destination: d });
                    proof {
                        assert(op_pairs(ops@) =~= op_pairs(before).push((src@, d@)));
                        assert forall|j: int|
                            0 <= j < before.len() implies (#[trigger] before[j]).destination@
                            != d@ by {
                            assert(op_pairs(before)[j].1 == before[j].destination@);
                        }
                    }
                }
            },
        }
        i = i + 1;
    }
    Ok(ops)
}

/// Computes the movie plan for the walked file paths, in their order: every
/// eligible media file is mapped to the movie's canonical path for its
/// extension.
#[verifier::loop_isolation(false)]
pub fn plan_movie(
    sources: &Vec<String>,
    existing: &Vec<String>,
    movie: &Movie,
    target: Option<&String>,
    source_root: &String,
) -> (r: Result<Vec<PendingOperation>, PlanError>)
    ensures
        ({
            let sp = spec_plan_movie(
                path_views(sources@),
                *movie,
                match target {
                    Some(t) => Some(t@),
                    None => None,
                },
                source_root@,
                strings_set(existing@),
            );
            match r {
                Ok(ops) => sp == Ok::<_, PlanFault>(op_pairs(ops@)) && distinct_destinations(ops@),
                Err(e) => sp is Err && error_matches(e, sp->Err_0),
            }
        }),
{
    let t: String = match target {
        Some(t) => t.clone(),
        None => match crate::paths::parent_of(source_root.as_str()) {
            Some(p) => p,
            None => {
                return Err(PlanError::MissingTarget);
            },
        },
    };
    let year = crate::catalog::year_from_date(movie.release_date.as_str());
    let ghost paths = path_views(sources@);
    let ghost ex = strings_set(existing@);
    let n = sources.len();
    let mut ops: Vec<PendingOperation> = Vec::new();
    let mut i: usize = 0;
    proof {
        assert(op_pairs(ops@) =~= Seq::<(Seq<char>, Seq<char>)>::empty());
    }
    while i < n
        invariant
            i <= n,
            spec_plan_movie_from(
                paths,
                movie.title@,
                year as int,
                t@,
                ex,
                0,
                Seq::empty(),
            ) == spec_plan_movie_from(
                paths,
                movie.title@,
                year as int,
                t@,
                ex,
                i as int,
                op_pairs(ops@),
            ),
            distinct_destinations(ops@),
        decreases n - i,
    {
        let src = &sources[i];
        proof {
            assert(paths[i as int] == sources@[i as int]@);
        }
        match movie_entry(src.as_str(), movie.title.as_str(), year, t.as_str()) {
            None => {},
            Some(d) => {
                if !str_eq(src.as_str(), d.as_str()) && !contains_str(existing, d.as_str()) {
                    if ops_contain_dest(&ops, d.as_str()) {
                        return Err(PlanError::AmbiguousOutput { destination: d });
                    }
                    let ghost before = ops@;
                    ops.push(PendingOperation { source: src.clone(), destination: d });
                    proof {
                        assert(op_pairs(ops@) =~= op_pairs(before).push((src@, d@)));
                        assert forall|j: int|
                            0 <= j < before.len() implies (#[trigger] before[j]).destination@
                            != d@ by {
                            assert(op_pairs(before)[j].1 == before[j].destination@);
                        }
                    }
                }
            },
        }
        i = i + 1;
    }
    Ok(ops)
}

/// Counts the primary video candidates among the walked paths.
#[verifier::loop_isolation(false)]
pub fn count_primary_videos(sources: &Vec<String>) -> (r: usize)
    ensures
        r == primary_count_from(path_views(sources@), 0),
{
    let ghost paths = path_views(sources@);
    let n = sources.len();
    let mut count: usize = 0;
    let mut i: usize = 0;
    while i < n
        invariant
            i <= n,
            n == sources@.len(),
            count <= i,
            primary_count_from(paths, 0) == count + primary_count_from(paths, i as int),
        decreases n - i,
    {
        proof {
            assert(paths[i as int] == sources@[i as int]@);
        }
        match parse_extension(sources[i].as_str()) {
            Some(ext) => {
                if !str_eq(ext.as_str(), "srt") {
                    count = count + 1;
                }
            },
            None => {},
        }
        i = i + 1;
    }
    count
}

/// Computes the movie plan while enforcing that the source holds exactly one
/// primary video file; two or more are rejected with their count.
pub fn plan_movie_strict(
    sources: &Vec<String>,
    existing: &Vec<String>,
    movie: &Movie,
    target: Option<&String>,
    source_root: &String,
) -> (r: Result<Vec<PendingOperation>, PlanError>)
    ensures
        ({
            let sp = spec_plan_movie_strict(
                path_views(sources@),
                *movie,
                match target {
                    Some(t) => Some(t@),
                    None => None,
                },
                source_root@,
                strings_set(existing@),
            );
            match r {
                Ok(ops) => sp == Ok::<_, PlanFault>(op_pairs(ops@)) && distinct_destinations(ops@),
                Err(e) => sp is Err && error_matches(e, sp->Err_0),
            }
        }),
{
    let count = count_primary_videos(sources);
    if count > 1 {
        return Err(PlanError::AmbiguousMovieSource { count });
    }
    plan_movie(sources, existing, movie, target, source_root)
}

// ---------------------------------------------------------------------------
// Laws of the planner
// ---------------------------------------------------------------------------

/// A successful fold extends its accumulator: the gathered pairs are a
/// prefix of the final plan.
proof fn lemma_plan_tv_prefix(
    paths: Seq<Seq<char>>,
    show: Show,
    target: Seq<char>,
    existing: Set<Seq<char>>,
    i: int,
    acc: Seq<(Seq<char>, Seq<char>)>,
    ops: Seq<(Seq<char>, Seq<char>)>,
)
    requires
        0 <= i,
        spec_plan_tv_from(paths, show, target, existing, i, acc) == Ok::<_, PlanFault>(ops),
    ensures
        acc.len() <= ops.len(),
        forall|j: int| 0 <= j < acc.len() ==> ops[j] == acc[j],
    decreases paths.len() - i,
{
    if i < paths.len() {
        match spec_tv_entry(paths[i], show, target) {
            TvEntrySpec::NotMedia => {
                lemma_plan_tv_prefix(paths, show, target, existing, i + 1, acc, ops);
            },
            TvEntrySpec::Unparsable => {
                lemma_plan_tv_prefix(paths, show, target, existing, i + 1, acc, ops);
            },
            TvEntrySpec::Mismatch(_) => {},
            TvEntrySpec::Dest(d) => {
                if paths[i] != d && !existing.contains(d) {
                    if !has_dest(acc, d) {
                        lemma_plan_tv_prefix(
                            paths,
                            show,
                            target,
                            existing,
                            i + 1,
                            acc.push((paths[i], d)),
                            ops,
                        );
                    }
                } else {
                    lemma_plan_tv_prefix(paths, show, target, existing, i + 1, acc, ops);
                }
            },
        }
    }
}

proof fn lemma_plan_tv_idempotent_from(
    paths: Seq<Seq<char>>,
    show: Show,
    target: Seq<char>,
    existing: Set<Seq<char>>,
    existing2: Set<Seq<char>>,
    ops: Seq<(Seq<char>, Seq<char>)>,
    i: int,
    acc: Seq<(Seq<char>, Seq<char>)>,
)
    requires
        0 <= i,
        spec_plan_tv_from(paths, show, target, existing, i, acc) == Ok::<_, PlanFault>(ops),
        forall|d: Seq<char>|
            #![trigger existing2.contains(d)]
            existing2.contains(d) <==> existing.contains(d) || has_dest(ops, d),
    ensures
        spec_plan_tv_from(paths, show, target, existing2, i, Seq::empty()) == Ok::<_, PlanFault>(
            Seq::<(Seq<char>, Seq<char>)>::empty(),
        ),
    decreases paths.len() - i,
{
    if i < paths.len() {
        match spec_tv_entry(paths[i], show, target) {
            TvEntrySpec::NotMedia => {
                lemma_plan_tv_idempotent_from(
                    paths,
                    show,
                    target,
                    existing,
                    existing2,
                    ops,
                    i + 1,
                    acc,
                );
            },
            TvEntrySpec::Unparsable => {
                lemma_plan_tv_idempotent_from(
                    paths,
                    show,
                    target,
                    existing,
                    existing2,
                    ops,
                    i + 1,
                    acc,
                );
            },
            TvEntrySpec::Mismatch(_) => {},
            TvEntrySpec::Dest(d) => {
                if paths[i] != d && !existing.contains(d) {
                    if !has_dest(acc, d) {
                        let acc2 = acc.push((paths[i], d));
                        lemma_plan_tv_prefix(paths, show, target, existing, i + 1, acc2, ops);
                        assert(ops[acc.len() as int] == (paths[i], d));
                        assert(has_dest(ops, d));
                        lemma_plan_tv_idempotent_from(
                            paths,
                            show,
                            target,
                            existing,
                            existing2,
                            ops,
                            i + 1,
                            acc2,
                        );
                    }
                } else {
                    lemma_plan_tv_idempotent_from(
                        paths,
                        show,
                        target,
                        existing,
                        existing2,
                        ops,
                        i + 1,
                        acc,
                    );
                }
            },
        }
    }
}

/// Planning is idempotent against its own output: once a plan has been
/// carried out — every planned destination now exists, and nothing else
/// changed — planning the same paths again yields the empty plan, because
/// every operation is skipped as already in place.
pub proof fn lemma_plan_tv_idempotent(
    paths: Seq<Seq<char>>,
    show: Show,
    target: Seq<char>,
    existing: Set<Seq<char>>,
    existing2: Set<Seq<char>>,
    ops: Seq<(Seq<char>, Seq<char>)>,
)
    requires
        spec_plan_tv_from(paths, show, target, existing, 0, Seq::empty()) == Ok::<_, PlanFault>(
            ops,
        ),
        forall|d: Seq<char>|
            #![trigger existing2.contains(d)]
            existing2.contains(d) <==> existing.contains(d) || has_dest(ops, d),
    ensures
        spec_plan_tv_from(paths, show, target, existing2, 0, Seq::empty()) == Ok::<_, PlanFault>(
            Seq::<(Seq<char>, Seq<char>)>::empty(),
        ),
{
    lemma_plan_tv_idempotent_from(
        paths,
        show,
        target,
        existing,
        existing2,
        ops,
        0,
        Seq::empty(),
    );
}

proof fn lemma_tv_ancillary_suffix(
    left: Seq<Seq<char>>,
    right: Seq<Seq<char>>,
    extra: Seq<char>,
    show: Show,
    target: Seq<char>,
    existing: Set<Seq<char>>,
    j: int,
    acc: Seq<(Seq<char>, Seq<char>)>,
)
    requires
        left.len() + 1 <= j <= left.len() + 1 + right.len(),
    ensures
        spec_plan_tv_from(left + seq![extra] + right, show, target, existing, j, acc)
            == spec_plan_tv_from(left + right, show, target, existing, j - 1, acc),
    decreases left.len() + 1 + right.len() - j,
{
    let p2 = left + seq![extra] + right;
    let p1 = left + right;
    if j < p2.len() {
        assert(p2[j] == right[j - left.len() - 1]);
        assert(p1[j - 1] == right[j - left.len() - 1]);
        match spec_tv_entry(p2[j], show, target) {
            TvEntrySpec::NotMedia => {
                lemma_tv_ancillary_suffix(left, right, extra, show, target, existing, j + 1, acc);
            },
            TvEntrySpec::Unparsable => {
                lemma_tv_ancillary_suffix(left, right, extra, show, target, existing, j + 1, acc);
            },
            TvEntrySpec::Mismatch(_) => {},
            TvEntrySpec::Dest(d) => {
                if p2[j] != d && !existing.contains(d) {
                    if !has_dest(acc, d) {
                        lemma_tv_ancillary_suffix(
                            left,
                            right,
                            extra,
                            show,
                            target,
                            existing,
                            j + 1,
                            acc.push((p2[j], d)),
                        );
                    }
                } else {
                    lemma_tv_ancillary_suffix(
                        left,
                        right,
                        extra,
                        show,
                        target,
                        existing,
                        j + 1,
                        acc,
                    );
                }
            },
        }
    }
}

proof fn lemma_tv_ancillary_from(
    left: Seq<Seq<char>>,
    right: Seq<Seq<char>>,
    extra: Seq<char>,
    show: Show,
    target: Seq<char>,
    existing: Set<Seq<char>>,
    i: int,
    acc: Seq<(Seq<char>, Seq<char>)>,
)
    requires
        0 <= i <= left.len(),
        spec_tv_entry(extra, show, target) is NotMedia || spec_tv_entry(extra, show, target)
            is Unparsable,
    ensures
        spec_plan_tv_from(left + seq![extra] + right, show, target, existing, i, acc)
            == spec_plan_tv_from(left + right, show, target, existing, i, acc),
    decreases left.len() - i,
{
    let p2 = left + seq![extra] + right;
    let p1 = left + right;
    if i < left.len() {
        assert(p2[i] == left[i]);
        assert(p1[i] == left[i]);
        match spec_tv_entry(p1[i], show, target) {
            TvEntrySpec::NotMedia => {
                lemma_tv_ancillary_from(left, right, extra, show, target, existing, i + 1, acc);
            },
            TvEntrySpec::Unparsable => {
                lemma_tv_ancillary_from(left, right, extra, show, target, existing, i + 1, acc);
            },
            TvEntrySpec::Mismatch(_) => {},
            TvEntrySpec::Dest(d) => {
                if p1[i] != d && !existing.contains(d) {
                    if !has_dest(acc, d) {
                        lemma_tv_ancillary_from(
                            left,
                            right,
                            extra,
                            show,
                            target,
                            existing,
                            i + 1,
                            acc.push((p1[i], d)),
                        );
                    }
                } else {
                    lemma_tv_ancillary_from(left, right, extra, show, target, existing, i + 1, acc);
                }
            },
        }
    } else {
        assert(p2[i] == extra);
        lemma_tv_ancillary_suffix(left, right, extra, show, target, existing, i + 1, acc);
    }
}

proof fn lemma_plan_movie_prefix(
    paths: Seq<Seq<char>>,
    title: Seq<char>,
    year: int,
    target: Seq<char>,
    existing: Set<Seq<char>>,
    i: int,
    acc: Seq<(Seq<char>, Seq<char>)>,
    ops: Seq<(Seq<char>, Seq<char>)>,
)
    requires
        0 <= i,
        spec_plan_movie_from(paths, title, year, target, existing, i, acc) == Ok::<_, PlanFault>(
            ops,
        ),
    ensures
        acc.len() <= ops.len(),
        forall|j: int| 0 <= j < acc.len() ==> ops[j] == acc[j],
    decreases paths.len() - i,
{
    if i < paths.len() {
        match spec_movie_entry(paths[i], title, year, target) {
            None => {
                lemma_plan_movie_prefix(paths, title, year, target, existing, i + 1, acc, ops);
            },
            Some(d) => {
                if paths[i] != d && !existing.contains(d) {
                    if !has_dest(acc, d) {
                        lemma_plan_movie_prefix(
                            paths,
                            title,
                            year,
                            target,
                            existing,
                            i + 1,
                            acc.push((paths[i], d)),
                            ops,
                        );
                    }
                } else {
                    lemma_plan_movie_prefix(paths, title, year, target, existing, i + 1, acc, ops);
                }
            },
        }
    }
}

proof fn lemma_plan_movie_idempotent_from(
    paths: Seq<Seq<char>>,
    title: Seq<char>,
    year: int,
    target: Seq<char>,
    existing: Set<Seq<char>>,
    existing2: Set<Seq<char>>,
    ops: Seq<(Seq<char>, Seq<char>)>,
    i: int,
    acc: Seq<(Seq<char>, Seq<char>)>,
)
    requires
        0 <= i,
        spec_plan_movie_from(paths, title, year, target, existing, i, acc) == Ok::<_, PlanFault>(
            ops,
        ),
        forall|d: Seq<char>|
            #![trigger existing2.contains(d)]
            existing2.contains(d) <==> existing.contains(d) || has_dest(ops, d),
    ensures
        spec_plan_movie_from(paths, title, year, target, existing2, i, Seq::empty()) == Ok::<
            _,
            PlanFault,
        >(Seq::<(Seq<char>, Seq<char>)>::empty()),
    decreases paths.len() - i,
{
    if i < paths.len() {
        match spec_movie_entry(paths[i], title, year, target) {
            None => {
                lemma_plan_movie_idempotent_from(
                    paths,
                    title,
                    year,
                    target,
                    existing,
                    existing2,
                    ops,
                    i + 1,
                    acc,
                );
            },
            Some(d) => {
                if paths[i] != d && !existing.contains(d) {
                    if !has_dest(acc, d) {
                        let acc2 = acc.push((paths[i], d));
                        lemma_plan_movie_prefix(
                            paths,
                            title,
                            year,
                            target,
                            existing,
                            i + 1,
                            acc2,
                            ops,
                        );
                        assert(ops[acc.len() as int] == (paths[i], d));
                        assert(has_dest(ops, d));
                        lemma_plan_movie_idempotent_from(
                            paths,
                            title,
                            year,
                            target,
                            existing,
                            existing2,
                            ops,
                            i + 1,
                            acc2,
                        );
                    }
                } else {
                    lemma_plan_movie_idempotent_from(
                        paths,
                        title,
                        year,
                        target,
                        existing,
                        existing2,
                        ops,
                        i + 1,
                        acc,
                    );
                }
            },
        }
    }
}

/// Movie planning is idempotent against its own output, exactly as TV
/// planning is: once every planned destination exists, planning the same
/// paths again yields the empty plan.
pub proof fn lemma_plan_movie_idempotent(
    paths: Seq<Seq<char>>,
    title: Seq<char>,
    year: int,
    target: Seq<char>,
    existing: Set<Seq<char>>,
    existing2: Set<Seq<char>>,
    ops: Seq<(Seq<char>, Seq<char>)>,
)
    requires
        spec_plan_movie_from(paths, title, year, target, existing, 0, Seq::empty()) == Ok::<
            _,
            PlanFault,
        >(ops),
        forall|d: Seq<char>|
            #![trigger existing2.contains(d)]
            existing2.contains(d) <==> existing.contains(d) || has_dest(ops, d),
    ensures
        spec_plan_movie_from(paths, title, year, target, existing2, 0, Seq::empty()) == Ok::<
            _,
            PlanFault,
        >(Seq::<(Seq<char>, Seq<char>)>::empty()),
{
    lemma_plan_movie_idempotent_from(
        paths,
        title,
        year,
        target,
        existing,
        existing2,
        ops,
        0,
        Seq::empty(),
    );
}

/// Ancillary files never reach a TV plan: inserting a path that the planner
/// skips — not a media file, or a media file without a readable episode key
/// — anywhere among the walked paths leaves the plan, and any planning
/// fault, exactly as it was.  In particular such a file never causes a
/// metadata-mismatch error.
pub proof fn lemma_tv_ancillary_ignored(
    left: Seq<Seq<char>>,
    right: Seq<Seq<char>>,
    extra: Seq<char>,
    show: Show,
    target: Seq<char>,
    existing: Set<Seq<char>>,
)
    requires
        spec_tv_entry(extra, show, target) is NotMedia || spec_tv_entry(extra, show, target)
            is Unparsable,
    ensures
        spec_plan_tv_from(left + seq![extra] + right, show, target, existing, 0, Seq::empty())
            == spec_plan_tv_from(left + right, show, target, existing, 0, Seq::empty()),
{
    lemma_tv_ancillary_from(left, right, extra, show, target, existing, 0, Seq::empty());
}

/// Decides one file under movie organization.
pub fn movie_entry(path: &str, title: &str, year: i32, target: &str) -> (r: Option<String>)
    requires
        0 <= year,
    ensures
        match r {
            Some(d) => spec_movie_entry(path@, title@, year as int, target@) == Some(d@),
            None => spec_movie_entry(path@, title@, year as int, target@) is None,
        },
{
    let ext = match parse_extension(path) {
        None => {
            return None;
        },
        Some(e) => e,
    };
    let t = build_title_with_year(title, year);
    let title_dir = sanitize_name(t.as_str());
    let file_name = build_movie_file_name(title, year, ext.as_str());
    let file_name_s = sanitize_name(file_name.as_str());
    let d0 = path_join(target, title_dir.as_str());
    let d1 = path_join(d0.as_str(), file_name_s.as_str());
    Some(d1)
}

} // verus!
