use prefetcharr::sonarr::{episode_window, EpisodeResource};

fn default_episode() -> EpisodeResource {
    EpisodeResource {
        id: 1,
        season_number: 1,
        episode_number: 1,
        has_file: false,
        monitored: false,
    }
}

fn numbered(season_number: i32, episode_number: i32) -> EpisodeResource {
    EpisodeResource {
        season_number,
        episode_number,
        ..default_episode()
    }
}

#[test]
fn episode_window_none() {
    let episodes = vec![EpisodeResource {
        ..default_episode()
    }];

    assert!(episode_window(1, 1, 0, episodes.clone()).is_empty());
    assert!(episode_window(1, 1, 1, episodes.clone()).is_empty());
}

#[test]
fn episode_window_gap() {
    let episodes = vec![
        EpisodeResource {
            episode_number: 1,
            ..default_episode()
        },
        EpisodeResource {
            episode_number: 3,
            ..default_episode()
        },
    ];

    assert!(episode_window(1, 1, 1, episodes.clone()).is_empty());

    let episodes = vec![
        EpisodeResource {
            season_number: 1,
            ..default_episode()
        },
        EpisodeResource {
            season_number: 3,
            ..default_episode()
        },
    ];

    assert!(episode_window(1, 1, 1, episodes.clone()).is_empty());

    let episodes = vec![
        EpisodeResource {
            episode_number: 1,
            season_number: 1,
            ..default_episode()
        },
        EpisodeResource {
            episode_number: 2,
            season_number: 2,
            ..default_episode()
        },
    ];

    assert!(episode_window(1, 1, 1, episodes.clone()).is_empty());
}

#[test]
fn episode_window_next_season() {
    let episodes = vec![
        EpisodeResource {
            episode_number: 8,
            season_number: 1,
            ..default_episode()
        },
        EpisodeResource {
            episode_number: 1,
            season_number: 2,
            ..default_episode()
        },
    ];

    let res = episode_window(1, 8, 1, episodes.clone());
    assert_eq!(res.len(), 1);
    assert_eq!(res[0].season_number, 2);
}

#[test]
fn episode_window_several() {
    let episodes = vec![
        EpisodeResource {
            episode_number: 8,
            season_number: 1,
            ..default_episode()
        },
        EpisodeResource {
            episode_number: 1,
            season_number: 2,
            ..default_episode()
        },
        EpisodeResource {
            episode_number: 2,
            season_number: 2,
            ..default_episode()
        },
    ];

    let res = episode_window(1, 8, 2, episodes.clone());
    assert_eq!(res.len(), 2);

    assert_eq!(res[0].episode_number, 1);
    assert_eq!(res[0].season_number, 2);

    assert_eq!(res[1].episode_number, 2);
    assert_eq!(res[1].season_number, 2);
}

#[test]
fn episode_window_specials_are_empty() {
    let episodes = vec![numbered(0, 1), numbered(0, 2), numbered(0, 3)];
    assert!(episode_window(0, 1, 2, episodes).is_empty());
    let episodes = vec![numbered(1, 1), numbered(1, 2)];
    assert!(episode_window(0, 1, 2, episodes).is_empty());
}

#[test]
fn episode_window_rollover() {
    let res = episode_window(1, 8, 1, vec![numbered(1, 8), numbered(2, 1)]);
    assert_eq!(res, vec![numbered(2, 1)]);
}

#[test]
fn episode_window_sorts_unordered_listing() {
    let episodes = vec![
        numbered(2, 2),
        numbered(1, 9),
        numbered(2, 1),
        numbered(1, 8),
        numbered(1, 10),
    ];
    let res = episode_window(1, 8, 3, episodes);
    assert_eq!(res, vec![numbered(1, 9), numbered(1, 10), numbered(2, 1)]);
}

#[test]
fn episode_window_keeps_duplicates_in_listing_order() {
    let first = EpisodeResource {
        id: 7,
        ..numbered(1, 2)
    };
    let second = EpisodeResource {
        id: 8,
        ..numbered(1, 2)
    };
    let res = episode_window(1, 1, 3, vec![first, numbered(1, 1), second, numbered(1, 3)]);
    assert_eq!(res, vec![first, second, numbered(1, 3)]);
}

#[test]
fn episode_window_stops_at_gap_before_num() {
    let episodes = vec![numbered(1, 7), numbered(1, 8), numbered(2, 2), numbered(2, 3)];
    let res = episode_window(1, 7, 3, episodes);
    assert_eq!(res, vec![numbered(1, 8)]);
}

#[test]
fn episode_window_unknown_start_is_empty() {
    let episodes = vec![numbered(1, 1), numbered(1, 2)];
    assert!(episode_window(1, 5, 2, episodes).is_empty());
}

#[test]
fn episode_window_is_pure() {
    let episodes = vec![numbered(1, 2), numbered(1, 1), numbered(1, 3)];
    let a = episode_window(1, 1, 2, episodes.clone());
    let b = episode_window(1, 1, 2, episodes);
    assert_eq!(a, b);
    assert_eq!(a, vec![numbered(1, 2), numbered(1, 3)]);
}
