use mediasort::{episode_id, year_from_date, Episode, Season, Show};

fn episode(id: i32, season: i32, number: i32, name: &str, overview: &str, date: &str) -> Episode {
    Episode {
        id,
        season_number: season,
        episode_number: number,
        name: name.to_string(),
        overview: overview.to_string(),
        air_date: date.to_string(),
    }
}

#[test]
fn test_episode_id_generation() {
    let episode_id = episode_id(1, 5);
    assert_eq!(episode_id, "S01E05");
}

#[test]
fn test_episode_id_double_digits() {
    let episode_id = episode_id(10, 23);
    assert_eq!(episode_id, "S10E23");
}

#[test]
fn test_episode_id_single_digit() {
    let episode_id = episode_id(2, 7);
    assert_eq!(episode_id, "S02E07");
}

#[test]
fn test_show_episodes_mapping() {
    let show = Show {
        id: 1,
        name: "Test Show".to_string(),
        overview: "A test show".to_string(),
        year: 2020,
        first_air_date: "2020-01-01".to_string(),
        number_of_episodes: 2,
        number_of_seasons: 1,
        seasons: vec![Season {
            id: 1,
            season_number: 1,
            name: "Season 1".to_string(),
            overview: "First season".to_string(),
            air_date: "2020-01-01".to_string(),
            episodes: vec![
                episode(1, 1, 1, "Pilot", "First episode", "2020-01-01"),
                episode(2, 1, 2, "Second Episode", "Second episode", "2020-01-08"),
            ],
        }],
    };

    let episodes = show.episodes();
    assert_eq!(episodes.len(), 2);
    assert!(episodes.contains_key("S01E01"));
    assert!(episodes.contains_key("S01E02"));
    assert_eq!(episodes.get("S01E01").unwrap().name, "Pilot");
    assert_eq!(episodes.get("S01E02").unwrap().name, "Second Episode");
}

#[test]
fn test_show_episodes_multiple_seasons() {
    let show = Show {
        id: 1,
        name: "Test Show".to_string(),
        overview: "A test show".to_string(),
        year: 2020,
        first_air_date: "2020-01-01".to_string(),
        number_of_episodes: 3,
        number_of_seasons: 2,
        seasons: vec![
            Season {
                id: 1,
                season_number: 1,
                name: "Season 1".to_string(),
                overview: "First season".to_string(),
                air_date: "2020-01-01".to_string(),
                episodes: vec![episode(1, 1, 1, "Pilot", "First episode", "2020-01-01")],
            },
            Season {
                id: 2,
                season_number: 2,
                name: "Season 2".to_string(),
                overview: "Second season".to_string(),
                air_date: "2021-01-01".to_string(),
                episodes: vec![
                    episode(2, 2, 1, "Season 2 Premiere", "First episode of season 2", "2021-01-01"),
                    episode(3, 2, 2, "Episode 2", "Second episode of season 2", "2021-01-08"),
                ],
            },
        ],
    };

    let episodes = show.episodes();
    assert_eq!(episodes.len(), 3);
    assert!(episodes.contains_key("S01E01"));
    assert!(episodes.contains_key("S02E01"));
    assert!(episodes.contains_key("S02E02"));
}

#[test]
fn test_show_episodes_empty() {
    let show = Show {
        id: 1,
        name: "Test Show".to_string(),
        overview: "A test show".to_string(),
        year: 2020,
        first_air_date: "2020-01-01".to_string(),
        number_of_episodes: 0,
        number_of_seasons: 0,
        seasons: vec![],
    };

    let episodes = show.episodes();
    assert_eq!(episodes.len(), 0);
    assert!(!episodes.contains_key("S01E01"));
    assert!(episodes.get("S01E01").is_none());
}

#[test]
fn test_show_episodes_later_entry_wins() {
    // Two seasons that both carry season number 1: the later episode record
    // overrides the earlier one under the same key.
    let show = Show {
        id: 1,
        name: "Test Show".to_string(),
        overview: "A test show".to_string(),
        year: 2020,
        first_air_date: "2020-01-01".to_string(),
        number_of_episodes: 2,
        number_of_seasons: 2,
        seasons: vec![
            Season {
                id: 1,
                season_number: 1,
                name: "Season 1".to_string(),
                overview: String::new(),
                air_date: "2020-01-01".to_string(),
                episodes: vec![episode(1, 1, 1, "Old", "", "2020-01-01")],
            },
            Season {
                id: 2,
                season_number: 1,
                name: "Season 1 again".to_string(),
                overview: String::new(),
                air_date: "2020-01-01".to_string(),
                episodes: vec![episode(2, 1, 1, "New", "", "2020-01-01")],
            },
        ],
    };

    let episodes = show.episodes();
    assert_eq!(episodes.len(), 1);
    assert_eq!(episodes.get("S01E01").unwrap().name, "New");
}

#[test]
fn test_year_from_date() {
    assert_eq!(year_from_date("1999-10-15"), 1999);
    assert_eq!(year_from_date("2020-01-01"), 2020);
    assert_eq!(year_from_date("2020"), 2020);
    assert_eq!(year_from_date(""), 0);
    assert_eq!(year_from_date("abcd-01-01"), 0);
    assert_eq!(year_from_date("-2020-01-01"), 0);
    assert_eq!(year_from_date("99999999999999999999-01-01"), 0);
}

#[test]
fn test_show_from_parts() {
    let series = mediasort::Series {
        id: 42,
        name: "Some Show".to_string(),
        overview: "About things".to_string(),
        first_air_date: "2008-01-20".to_string(),
        number_of_episodes: 4,
        number_of_seasons: 2,
    };
    let show = Show::from_parts(series, vec![]);
    assert_eq!(show.id, 42);
    assert_eq!(show.name, "Some Show");
    assert_eq!(show.year, 2008);
    assert_eq!(show.first_air_date, "2008-01-20");
    assert_eq!(show.number_of_seasons, 2);
    assert!(show.seasons.is_empty());
}
