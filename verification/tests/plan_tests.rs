use mediasort::{
    count_primary_videos, movie_entry, parent_of, path_join, plan_movie, plan_movie_strict,
    plan_tv, tv_entry, Episode, EntryOutcome, Movie, PlanError, Season, Show,
};

fn episode(id: i32, season: i32, number: i32, name: &str) -> Episode {
    Episode {
        id,
        season_number: season,
        episode_number: number,
        name: name.to_string(),
        overview: String::new(),
        air_date: String::new(),
    }
}

fn test_show() -> Show {
    Show {
        id: 42,
        name: "Show Name".to_string(),
        overview: "Test show".to_string(),
        year: 2008,
        first_air_date: "2008-01-20".to_string(),
        number_of_episodes: 4,
        number_of_seasons: 2,
        seasons: vec![
            Season {
                id: 1,
                season_number: 1,
                name: "Season 1".to_string(),
                overview: String::new(),
                air_date: "2008-01-20".to_string(),
                episodes: vec![episode(101, 1, 1, "One"), episode(102, 1, 2, "Two")],
            },
            Season {
                id: 2,
                season_number: 2,
                name: "Season 2".to_string(),
                overview: String::new(),
                air_date: "2009-03-08".to_string(),
                episodes: vec![episode(201, 2, 1, "Three"), episode(202, 2, 2, "Four")],
            },
        ],
    }
}

fn test_movie() -> Movie {
    Movie {
        id: 550,
        title: "Fight Club".to_string(),
        overview: "A ticking-time-bomb insomniac.".to_string(),
        release_date: "1999-10-15".to_string(),
        original_language: "en".to_string(),
    }
}

fn strings(items: &[&str]) -> Vec<String> {
    items.iter().map(|s| s.to_string()).collect()
}

#[test]
fn test_plan_tv_scenario() {
    // The end-to-end TV scenario: three episodes land in their season
    // directories, the readme is left alone.
    let sources = strings(&[
        "source/Show.S01E01.mkv",
        "source/Show.S01E02.mp4",
        "source/Show.S02E01.avi",
        "source/readme.txt",
    ]);
    let existing = Vec::new();
    let show = test_show();
    let target = "target".to_string();
    let ops = plan_tv(&sources, &existing, &show, Some(&target), &"source".to_string()).unwrap();
    assert_eq!(ops.len(), 3);
    assert_eq!(ops[0].source, "source/Show.S01E01.mkv");
    assert_eq!(
        ops[0].destination,
        "target/Show Name (2008)/Season 01/Show Name - S01E01 - One.mkv"
    );
    assert_eq!(
        ops[1].destination,
        "target/Show Name (2008)/Season 01/Show Name - S01E02 - Two.mp4"
    );
    assert_eq!(
        ops[2].destination,
        "target/Show Name (2008)/Season 02/Show Name - S02E01 - Three.avi"
    );
}

#[test]
fn test_plan_tv_directory_layout() {
    // Files under per-season directories, subtitles included, ancillary
    // files skipped.
    let sources = strings(&[
        "source/readme.txt",
        "source/s01/02.Show.mp4",
        "source/s01/Show.S01E01.mkv",
        "source/s01/Show.S01E01.srt",
        "source/s02/Show.S02E01.avi",
        "source/s02/Show.S02E01.thumb.jpg",
        "source/trailer.mp4",
    ]);
    let existing = Vec::new();
    let show = test_show();
    let target = "target".to_string();
    let ops = plan_tv(&sources, &existing, &show, Some(&target), &"source".to_string()).unwrap();
    let dests: Vec<&str> = ops.iter().map(|o| o.destination.as_str()).collect();
    assert_eq!(
        dests,
        vec![
            "target/Show Name (2008)/Season 01/Show Name - S01E02 - Two.mp4",
            "target/Show Name (2008)/Season 01/Show Name - S01E01 - One.mkv",
            "target/Show Name (2008)/Season 01/Show Name - S01E01 - One.srt",
            "target/Show Name (2008)/Season 02/Show Name - S02E01 - Three.avi",
        ]
    );
}

#[test]
fn test_plan_tv_default_target_is_parent() {
    let sources = strings(&["media/source/Show.S01E01.mkv"]);
    let existing = Vec::new();
    let show = test_show();
    let ops = plan_tv(&sources, &existing, &show, None, &"media/source".to_string()).unwrap();
    assert_eq!(
        ops[0].destination,
        "media/Show Name (2008)/Season 01/Show Name - S01E01 - One.mkv"
    );
}

#[test]
fn test_plan_tv_missing_target() {
    let sources = strings(&["Show.S01E01.mkv"]);
    let existing = Vec::new();
    let show = test_show();
    let result = plan_tv(&sources, &existing, &show, None, &"".to_string());
    assert!(matches!(result, Err(PlanError::MissingTarget)));
    assert_eq!(
        PlanError::MissingTarget.message(),
        "Failed to determine target"
    );
}

#[test]
fn test_plan_tv_metadata_mismatch() {
    // A parsable episode that the catalog does not know is a hard error.
    let sources = strings(&["source/Show.S05E09.mkv"]);
    let existing = Vec::new();
    let show = test_show();
    let target = "target".to_string();
    let result = plan_tv(&sources, &existing, &show, Some(&target), &"source".to_string());
    match result {
        Err(PlanError::MetadataMismatch { ref key }) => {
            assert_eq!(key, "S05E09");
            assert_eq!(
                result.unwrap_err().message(),
                "Unable to get metadata for \"S05E09\""
            );
        }
        other => panic!("expected a metadata mismatch, got {:?}", other),
    }
}

#[test]
fn test_plan_tv_ancillary_never_errors() {
    // Unparsable ancillary files are never included and never cause
    // mismatch errors, even when the catalog is empty.
    let sources = strings(&["source/readme.txt", "source/thumb.jpg", "source/trailer.mp4"]);
    let existing = Vec::new();
    let show = test_show();
    let target = "target".to_string();
    let ops = plan_tv(&sources, &existing, &show, Some(&target), &"source".to_string()).unwrap();
    assert!(ops.is_empty());
}

#[test]
fn test_plan_tv_collision_is_ambiguous_output() {
    // Two sources that differ only by a stripped quality tag map to the
    // same destination: the plan must refuse.
    let sources = strings(&[
        "source/Show.S01E01.720p.mkv",
        "source/Show.S01E01.1080p.mkv",
    ]);
    let existing = Vec::new();
    let show = test_show();
    let target = "target".to_string();
    let result = plan_tv(&sources, &existing, &show, Some(&target), &"source".to_string());
    match result {
        Err(PlanError::AmbiguousOutput { ref destination }) => {
            assert_eq!(
                destination,
                "target/Show Name (2008)/Season 01/Show Name - S01E01 - One.mkv"
            );
            let msg = result.unwrap_err().message();
            assert!(msg.contains("Multiple input files map to the same output"));
        }
        other => panic!("expected an ambiguous output, got {:?}", other),
    }
}

#[test]
fn test_plan_tv_idempotent_after_execute() {
    // Planning again once every planned destination exists yields an empty
    // plan.
    let sources = strings(&[
        "source/Show.S01E01.mkv",
        "source/Show.S01E02.mp4",
        "source/readme.txt",
    ]);
    let existing = Vec::new();
    let show = test_show();
    let target = "target".to_string();
    let ops = plan_tv(&sources, &existing, &show, Some(&target), &"source".to_string()).unwrap();
    assert_eq!(ops.len(), 2);

    let now_existing: Vec<String> = ops.iter().map(|o| o.destination.clone()).collect();
    let again =
        plan_tv(&sources, &now_existing, &show, Some(&target), &"source".to_string()).unwrap();
    assert!(again.is_empty());
}

#[test]
fn test_plan_tv_skips_source_equal_destination() {
    let show = test_show();
    let target = "target".to_string();
    let in_place = "target/Show Name (2008)/Season 01/Show Name - S01E01 - One.mkv";
    let sources = strings(&[in_place]);
    let existing = Vec::new();
    let ops = plan_tv(&sources, &existing, &show, Some(&target), &"source".to_string()).unwrap();
    assert!(ops.is_empty());
}

#[test]
fn test_plan_tv_sanitizes_names() {
    // Characters that are unsafe in file names are stripped from the
    // destination.
    let mut show = test_show();
    show.name = "Show: Name?".to_string();
    let sources = strings(&["source/Show.S01E01.mkv"]);
    let existing = Vec::new();
    let target = "target".to_string();
    let ops = plan_tv(&sources, &existing, &show, Some(&target), &"source".to_string()).unwrap();
    assert_eq!(
        ops[0].destination,
        "target/Show Name (2008)/Season 01/Show Name - S01E01 - One.mkv"
    );
}

#[test]
fn test_plan_movie_single_file() {
    let sources = strings(&["source/Fight.Club.1080p.mkv"]);
    let existing = Vec::new();
    let movie = test_movie();
    let target = "target".to_string();
    let ops =
        plan_movie(&sources, &existing, &movie, Some(&target), &"source".to_string()).unwrap();
    assert_eq!(ops.len(), 1);
    assert_eq!(ops[0].destination, "target/Fight Club (1999)/Fight Club (1999).mkv");
}

#[test]
fn test_plan_movie_multiple_files_different_extensions() {
    let sources = strings(&["source/Fight.Club.1999.mkv", "source/Fight.Club.1999.srt"]);
    let existing = Vec::new();
    let movie = test_movie();
    let target = "target".to_string();
    let ops =
        plan_movie(&sources, &existing, &movie, Some(&target), &"source".to_string()).unwrap();
    assert_eq!(ops.len(), 2);
    assert_eq!(ops[0].destination, "target/Fight Club (1999)/Fight Club (1999).mkv");
    assert_eq!(ops[1].destination, "target/Fight Club (1999)/Fight Club (1999).srt");
}

#[test]
fn test_plan_movie_duplicate_extension_fails() {
    let sources = strings(&[
        "source/Fight.Club.1999.1080p.mkv",
        "source/Fight.Club.1999.720p.mkv",
    ]);
    let existing = Vec::new();
    let movie = test_movie();
    let target = "target".to_string();
    let result = plan_movie(&sources, &existing, &movie, Some(&target), &"source".to_string());
    match result {
        Err(PlanError::AmbiguousOutput { .. }) => {
            let msg = result.unwrap_err().message();
            assert!(
                msg.contains("Multiple input files map to the same output"),
                "error message should mention the duplicate output: {}",
                msg
            );
        }
        other => panic!("expected an ambiguous output, got {:?}", other),
    }
}

#[test]
fn test_plan_movie_strict_two_videos() {
    // The end-to-end strict movie scenario: two primary video files must be
    // rejected with a count of two.
    let sources = strings(&[
        "source/Fight.Club.1999.1080p.mkv",
        "source/Fight.Club.1999.720p.mkv",
    ]);
    let existing = Vec::new();
    let movie = test_movie();
    let target = "target".to_string();
    let result =
        plan_movie_strict(&sources, &existing, &movie, Some(&target), &"source".to_string());
    match result {
        Err(PlanError::AmbiguousMovieSource { count }) => {
            assert_eq!(count, 2);
            assert_eq!(
                result.unwrap_err().message(),
                "Expected exactly one video file, found 2"
            );
        }
        other => panic!("expected an ambiguous movie source, got {:?}", other),
    }
}

#[test]
fn test_plan_movie_strict_subtitles_exempt() {
    // A subtitle beside the one video file does not count as a second
    // candidate.
    let sources = strings(&["source/Fight.Club.1999.mkv", "source/Fight.Club.1999.srt"]);
    let existing = Vec::new();
    let movie = test_movie();
    let target = "target".to_string();
    let ops =
        plan_movie_strict(&sources, &existing, &movie, Some(&target), &"source".to_string())
            .unwrap();
    assert_eq!(ops.len(), 2);
}

#[test]
fn test_plan_movie_idempotent_after_execute() {
    let sources = strings(&["source/Fight.Club.1999.mkv"]);
    let existing = Vec::new();
    let movie = test_movie();
    let target = "target".to_string();
    let ops =
        plan_movie(&sources, &existing, &movie, Some(&target), &"source".to_string()).unwrap();
    let now_existing: Vec<String> = ops.iter().map(|o| o.destination.clone()).collect();
    let again =
        plan_movie(&sources, &now_existing, &movie, Some(&target), &"source".to_string()).unwrap();
    assert!(again.is_empty());
}

#[test]
fn test_plan_movie_zero_year() {
    let mut movie = test_movie();
    movie.release_date = String::new();
    let sources = strings(&["source/Fight.Club.mkv"]);
    let existing = Vec::new();
    let target = "target".to_string();
    let ops =
        plan_movie(&sources, &existing, &movie, Some(&target), &"source".to_string()).unwrap();
    assert_eq!(ops[0].destination, "target/Fight Club (0)/Fight Club (0).mkv");
}

#[test]
fn test_path_join() {
    assert_eq!(path_join("a", "b"), "a/b");
    assert_eq!(path_join("a/", "b"), "a/b");
    assert_eq!(path_join("", "b"), "b");
}

#[test]
fn test_parent_of() {
    assert_eq!(parent_of("a/b/c").as_deref(), Some("a/b"));
    assert_eq!(parent_of("a/b/").as_deref(), Some("a"));
    assert_eq!(parent_of("a").as_deref(), Some(""));
    assert_eq!(parent_of("/a").as_deref(), Some("/"));
    assert_eq!(parent_of("/"), None);
    assert_eq!(parent_of(""), None);
}

#[test]
fn test_tv_entry_outcomes() {
    let show = test_show();
    let map = show.episodes();
    assert!(matches!(
        tv_entry("source/readme.txt", &show, &map, "target"),
        Ok(EntryOutcome::NotMedia)
    ));
    assert!(matches!(
        tv_entry("source/trailer.mp4", &show, &map, "target"),
        Ok(EntryOutcome::Unparsable)
    ));
    match tv_entry("source/Show.S01E01.mkv", &show, &map, "target") {
        Ok(EntryOutcome::Destination(d)) => assert_eq!(
            d,
            "target/Show Name (2008)/Season 01/Show Name - S01E01 - One.mkv"
        ),
        other => panic!("expected a destination, got {:?}", other),
    }
    assert!(matches!(
        tv_entry("source/Show.S09E09.mkv", &show, &map, "target"),
        Err(PlanError::MetadataMismatch { .. })
    ));
}

#[test]
fn test_movie_entry_and_primary_count() {
    assert_eq!(
        movie_entry("source/Fight.Club.mkv", "Fight Club", 1999, "target").as_deref(),
        Some("target/Fight Club (1999)/Fight Club (1999).mkv")
    );
    assert_eq!(movie_entry("source/readme.txt", "Fight Club", 1999, "target"), None);

    let sources = strings(&[
        "source/a.mkv",
        "source/b.mp4",
        "source/c.srt",
        "source/readme.txt",
    ]);
    assert_eq!(count_primary_videos(&sources), 2);
}
