//! A verified core for a media-file organizer.
//!
//! The library classifies loosely-named movie and TV-episode files, extracts
//! season/episode identifiers and title guesses from noisy file paths, and
//! computes a conflict-free plan of rename/relocate operations driven by
//! catalog metadata.  Directory walking, filesystem mutation, network fetches
//! and the interactive front end live outside the library and only hand plain
//! values in and out.

pub mod catalog;
pub mod episode;
pub mod paths;
pub mod plan;
pub mod strutil;
pub mod title;
pub mod video;

pub use catalog::{Episode, EpisodeMap, Movie, Season, Series, Show, year_from_date};
pub use episode::{EpisodeKey, ParseError, episode_id, parse_episode_id, parse_episode_key};
pub use paths::parent_of;
pub use plan::{
    EntryOutcome, PendingOperation, PlanError, count_primary_videos, movie_entry, path_join,
    plan_movie, plan_movie_strict, plan_tv, tv_entry,
};
pub use title::parse_title;
pub use video::{ContentType, parse_content_type, parse_extension};
