use mediasort::{episode_id, parse_content_type, parse_episode_id, parse_extension, parse_title};
use mediasort::{ContentType, ParseError};

#[test]
fn test_episode_id() {
    assert_eq!(episode_id(1, 1), "S01E01");
    assert_eq!(episode_id(5, 12), "S05E12");
    assert_eq!(episode_id(10, 99), "S10E99");
}

#[test]
fn test_parse_title_simple() {
    assert_eq!(parse_title("Movie Name.mkv"), Some("Movie Name".to_string()));
}

#[test]
fn test_parse_title_with_season_episode() {
    assert_eq!(
        parse_title("Show.Title.S01E01.720p.mkv"),
        Some("Show Title".to_string())
    );
}

#[test]
fn test_parse_title_with_year() {
    assert_eq!(
        parse_title("Movie.Title.1999.1080p.BluRay.mkv"),
        Some("Movie Title".to_string())
    );
}

#[test]
fn test_parse_title_with_quality() {
    assert_eq!(
        parse_title("Movie_Title_BluRay_1080p.mkv"),
        Some("Movie Title".to_string())
    );
}

#[test]
fn test_parse_title_with_brackets() {
    assert_eq!(parse_title("Show Name [1080p].mkv"), Some("Show Name".to_string()));
}

#[test]
fn test_parse_title_no_stem() {
    assert_eq!(parse_title(""), None);
    assert_eq!(parse_title("/"), None);
}

#[test]
fn test_parse_title_all_metadata() {
    assert_eq!(parse_title("1080p.mkv"), None);
}

#[test]
fn test_parse_content_type() {
    assert_eq!(parse_content_type("Show.S01E01.mkv"), ContentType::Show);
    assert_eq!(parse_content_type("show_s02e10.mp4"), ContentType::Show);
    assert_eq!(parse_content_type("Movie.2020.mkv"), ContentType::Movie);
    assert_eq!(parse_content_type("Film.1080p.mp4"), ContentType::Movie);
}

#[test]
fn test_content_type_as_str() {
    assert_eq!(ContentType::Show.as_str(), "TV Show");
    assert_eq!(ContentType::Movie.as_str(), "Movie");
}

#[test]
fn test_parse_extension_with_valid_extensions() {
    assert_eq!(parse_extension("video.mp4").as_deref(), Some("mp4"));
    assert_eq!(parse_extension("movie.mkv").as_deref(), Some("mkv"));
    assert_eq!(parse_extension("film.avi").as_deref(), Some("avi"));
    assert_eq!(parse_extension("clip.mov").as_deref(), Some("mov"));
    assert_eq!(parse_extension("stream.flv").as_deref(), Some("flv"));
    assert_eq!(parse_extension("file.wmv").as_deref(), Some("wmv"));
    assert_eq!(parse_extension("web.webm").as_deref(), Some("webm"));
}

#[test]
fn test_parse_extension_with_invalid_extensions() {
    assert_eq!(parse_extension("image.jpg"), None);
    assert_eq!(parse_extension("document.txt"), None);
    assert_eq!(parse_extension("audio.mp3"), None);
    assert_eq!(parse_extension("archive.zip"), None);
}

#[test]
fn test_parse_extension_with_directory() {
    assert_eq!(parse_extension("some_directory/"), None);
}

#[test]
fn test_parse_extension_with_no_extension() {
    assert_eq!(parse_extension("noextension"), None);
}

#[test]
fn test_parse_extension_with_uppercase_extension() {
    assert_eq!(parse_extension("video.MP4"), Some("mp4".to_string()));
}

#[test]
fn test_parse_extension_with_multiple_dots() {
    assert_eq!(parse_extension("my.video.file.mp4"), Some("mp4".to_string()));
}

#[test]
fn test_parse_extension_case_insensitive() {
    assert_eq!(parse_extension("video.MP4"), Some("mp4".to_string()));
    assert_eq!(parse_extension("video.MKV"), Some("mkv".to_string()));
    assert_eq!(parse_extension("video.AVI"), Some("avi".to_string()));
}

#[test]
fn test_parse_extension_with_path() {
    assert_eq!(parse_extension("/path/to/video.mp4"), Some("mp4".to_string()));
    assert_eq!(parse_extension("relative/path/video.mkv"), Some("mkv".to_string()));
}

#[test]
fn test_parse_episode_id_valid_pattern() {
    let result = parse_episode_id("show_s01e05.mkv");
    assert_eq!(result.unwrap(), "S01E05");
}

#[test]
fn test_parse_episode_id_uppercase_pattern() {
    let result = parse_episode_id("Series_S10E23.mp4");
    assert_eq!(result.unwrap(), "S10E23");
}

#[test]
fn test_parse_episode_id_mixed_case() {
    let result = parse_episode_id("show_s02E15.avi");
    assert_eq!(result.unwrap(), "S02E15");
}

#[test]
fn test_parse_episode_id_space_separated() {
    let result = parse_episode_id("Show S02 E15.avi");
    assert_eq!(result.unwrap(), "S02E15");
}

#[test]
fn test_parse_episode_id_period_separated() {
    let result = parse_episode_id("show.S02.E15.avi");
    assert_eq!(result.unwrap(), "S02E15");
}

#[test]
fn test_parse_episode_id_no_pattern() {
    let result = parse_episode_id("video.mp4");
    assert!(result.is_err());
}

#[test]
fn test_parse_episode_id_invalid_numbers() {
    let result = parse_episode_id("show_saXebX.mkv");
    assert!(result.is_err());
}

#[test]
fn test_parse_episode_id_not_found_kind() {
    assert!(matches!(parse_episode_id("video.mp4"), Err(ParseError::NotFound)));
}

#[test]
fn test_parse_episode_id_overflowing_season() {
    let result = parse_episode_id("show.s99999999999999999999.e01.mkv");
    assert!(matches!(result, Err(ParseError::InvalidNumber)));
}

#[test]
fn test_parse_episode_id_with_text() {
    let result = parse_episode_id("The Show s03e07 The Episode Name.mp4");
    assert_eq!(result.unwrap(), "S03E07");
}

#[test]
fn test_parse_episode_id_complex_filename() {
    let result = parse_episode_id("[Group] Show Name - s02e15 - Episode Title [1080p].mkv");
    assert_eq!(result.unwrap(), "S02E15");
}

#[test]
fn test_parse_episode_id_with_year() {
    let result = parse_episode_id("Show.2024.s01e03.720p.mp4");
    assert_eq!(result.unwrap(), "S01E03");
}

#[test]
fn test_parse_episode_id_from_directory() {
    let result = parse_episode_id("Season 01/01 Pilot.mp4");
    assert_eq!(result.unwrap(), "S01E01");
}

#[test]
fn test_parse_episode_id_from_directory_short() {
    let result = parse_episode_id("S02/05 Episode Name.mkv");
    assert_eq!(result.unwrap(), "S02E05");
}

#[test]
fn test_parse_episode_id_from_directory_with_metadata() {
    let result = parse_episode_id("Show.Season.01.720p.x264.AC3/Show.01.720p.x264.AC3.mkv");
    assert_eq!(result.unwrap(), "S01E01");
}

#[test]
fn test_parse_episode_id_standalone_episode_with_dot() {
    let result = parse_episode_id("Season.10/08.Episode.Title.mkv");
    assert_eq!(result.unwrap(), "S10E08");
}

#[test]
fn test_parse_episode_id_standalone_episode_with_dash() {
    let result = parse_episode_id("Season-03/12-Episode-Title.mp4");
    assert_eq!(result.unwrap(), "S03E12");
}

#[test]
fn test_parse_episode_id_standalone_episode_with_underscore() {
    let result = parse_episode_id("Season_03/12_Episode_Title.mp4");
    assert_eq!(result.unwrap(), "S03E12");
}

#[test]
fn test_parse_episode_id_prefers_filename_pattern() {
    // Should prefer S02E03 from filename over Season 01 from directory
    let result = parse_episode_id("Season.01/Show.S02E03.mkv");
    assert_eq!(result.unwrap(), "S02E03");
}

#[test]
fn test_parse_episode_key_fields() {
    let key = mediasort::parse_episode_key("Show.S07E04.mkv").unwrap();
    assert_eq!(key.season, 7);
    assert_eq!(key.episode, 4);
}

#[test]
fn test_episode_id_three_digit_season() {
    assert_eq!(episode_id(123, 4), "S123E04");
    assert_eq!(episode_id(0, 0), "S00E00");
}
