use prefetcharr::media_server::{NowPlaying, Series, User};
use prefetcharr::process::{Actor, Reply, Request};
use prefetcharr::sonarr::{
    EpisodeResource, NewItemMonitorTypes, SeasonResource, SeasonStatisticsResource,
    SeriesResource, TagResource,
};
use prefetcharr::util::once::Seen;
use prefetcharr::Message;
use serde_json::Value;

/// A request, with only the parts that the scenarios look at.
#[derive(Debug, PartialEq)]
enum Call {
    ListSeries,
    ListTags,
    ListEpisodes(i32),
    Put {
        monitored: bool,
        seasons: Vec<(i32, bool)>,
        new_items: Option<NewItemMonitorTypes>,
    },
    Monitor(Vec<i32>),
    SearchEpisodes(Vec<i32>),
    SearchSeason(i32, i32),
}

fn call(request: &Request) -> Call {
    match request {
        Request::ListSeries => Call::ListSeries,
        Request::ListTags => Call::ListTags,
        Request::ListEpisodes { series_id } => Call::ListEpisodes(*series_id),
        Request::PutSeries { series } => Call::Put {
            monitored: series.monitored,
            seasons: series
                .seasons
                .iter()
                .map(|s| (s.season_number, s.monitored))
                .collect(),
            new_items: series.monitor_new_items,
        },
        Request::MonitorEpisodes { body } => {
            assert!(body.monitored);
            Call::Monitor(body.episode_ids.clone())
        }
        Request::SearchEpisodes { episode_ids } => Call::SearchEpisodes(episode_ids.clone()),
        Request::SearchSeason {
            series_id,
            season_number,
        } => Call::SearchSeason(*series_id, *season_number),
        Request::Idle => panic!("idle is not a call"),
    }
}

fn np_default() -> NowPlaying {
    NowPlaying {
        series: Series::Tvdb(1234),
        episode: 5,
        season: 3,
        user: User {
            name: "user".to_string(),
            id: "08ba1929-681e-4b24-929b-9245852f65c0".to_string(),
        },
        library: None,
    }
}

fn statistics() -> SeasonStatisticsResource {
    SeasonStatisticsResource {
        size_on_disk: 9000,
        episode_count: 8,
        episode_file_count: 8,
        total_episode_count: 8,
        other: Value::Null,
    }
}

fn season(season_number: i32) -> SeasonResource {
    SeasonResource {
        season_number,
        monitored: false,
        statistics: Some(statistics()),
        other: Value::Null,
    }
}

fn series_unmonitored() -> SeriesResource {
    SeriesResource {
        id: 1234,
        title: Some("TestShow".to_string()),
        tvdb_id: 5678,
        monitored: false,
        monitor_new_items: Some(NewItemMonitorTypes::All),
        seasons: vec![season(1), season(2)],
        tags: None,
        other: Value::Null,
    }
}

fn episodes() -> Vec<EpisodeResource> {
    let mut episodes = Vec::new();
    for season in 1..3 {
        for episode in 1..9 {
            episodes.push(EpisodeResource {
                id: season * 10 + episode,
                season_number: season,
                episode_number: episode,
                has_file: false,
                monitored: false,
            });
        }
    }
    episodes
}

/// Hands `np` to the engine and answers its requests from the given
/// listings, every write and command succeeding; returns the calls made.
fn drive(
    actor: &mut Actor,
    np: NowPlaying,
    series: &dyn Fn() -> Vec<SeriesResource>,
    episodes: &dyn Fn() -> Vec<EpisodeResource>,
    tags: &dyn Fn() -> Option<Vec<TagResource>>,
) -> Vec<Call> {
    assert!(actor.is_idle());
    let mut calls = Vec::new();
    let mut request = actor.handle(Message::NowPlaying(np));
    while !matches!(request, Request::Idle) {
        let reply = match request {
            Request::ListSeries => Reply::Series(series()),
            Request::ListEpisodes { .. } => Reply::Episodes(episodes()),
            Request::ListTags => match tags() {
                Some(t) => Reply::Tags(t),
                None => Reply::Failed,
            },
            _ => Reply::Done,
        };
        calls.push(call(&request));
        request = actor.advance(reply);
    }
    calls
}

fn no_tags() -> Option<Vec<TagResource>> {
    None
}

#[test]
fn search_next() {
    let mut actor = Actor::new(Seen::default(), 2, true, None);
    let np = NowPlaying {
        series: Series::Title("TestShow".to_string()),
        episode: 7,
        season: 1,
        ..np_default()
    };
    let calls = drive(&mut actor, np, &|| vec![series_unmonitored()], &episodes, &no_tags);
    assert_eq!(
        calls,
        vec![
            Call::ListSeries,
            Call::ListEpisodes(1234),
            Call::Put {
                monitored: true,
                seasons: vec![(1, true), (2, true)],
                new_items: Some(NewItemMonitorTypes::All),
            },
            Call::SearchSeason(1234, 1),
            Call::SearchSeason(1234, 2),
        ]
    );
}

#[test]
fn search_episodes() {
    let mut actor = Actor::new(Seen::default(), 3, false, None);
    let np = NowPlaying {
        series: Series::Title("TestShow".to_string()),
        episode: 7,
        season: 1,
        ..np_default()
    };
    let calls = drive(&mut actor, np, &|| vec![series_unmonitored()], &episodes, &no_tags);
    assert_eq!(
        calls,
        vec![
            Call::ListSeries,
            Call::ListEpisodes(1234),
            Call::Put {
                monitored: true,
                seasons: vec![(1, false), (2, false)],
                new_items: Some(NewItemMonitorTypes::All),
            },
            Call::Monitor(vec![18, 21, 22]),
            Call::SearchEpisodes(vec![18, 21, 22]),
        ]
    );
}

#[test]
fn search_episodes_exceeding() {
    let mut actor = Actor::new(Seen::default(), 3, false, None);
    let np = NowPlaying {
        series: Series::Title("TestShow".to_string()),
        episode: 7,
        season: 2,
        ..np_default()
    };
    let calls = drive(&mut actor, np, &|| vec![series_unmonitored()], &episodes, &no_tags);
    assert_eq!(
        calls,
        vec![
            Call::ListSeries,
            Call::ListEpisodes(1234),
            Call::Put {
                monitored: true,
                seasons: vec![(1, false), (2, true)],
                new_items: Some(NewItemMonitorTypes::All),
            },
            Call::Monitor(vec![28]),
            Call::SearchEpisodes(vec![28]),
        ]
    );
}

#[test]
fn monitor() {
    let mut actor = Actor::new(Seen::default(), 2, true, None);
    let np = NowPlaying {
        series: Series::Tvdb(5678),
        episode: 7,
        season: 1,
        ..np_default()
    };
    let calls = drive(&mut actor, np, &|| vec![series_unmonitored()], &episodes, &no_tags);
    assert_eq!(calls[0], Call::ListSeries);
    assert_eq!(calls[1], Call::ListEpisodes(1234));
    assert_eq!(
        calls[2],
        Call::Put {
            monitored: true,
            seasons: vec![(1, true), (2, true)],
            new_items: Some(NewItemMonitorTypes::All),
        }
    );
}

#[test]
fn pilot() {
    let mut actor = Actor::new(Seen::default(), 2, true, None);
    let np = NowPlaying {
        series: Series::Title("TestShow".to_string()),
        episode: 1,
        season: 1,
        ..np_default()
    };
    let calls = drive(&mut actor, np, &|| vec![series_unmonitored()], &episodes, &no_tags);
    assert_eq!(
        calls,
        vec![
            Call::ListSeries,
            Call::ListEpisodes(1234),
            Call::Put {
                monitored: true,
                seasons: vec![(1, true), (2, false)],
                new_items: Some(NewItemMonitorTypes::All),
            },
            Call::SearchSeason(1234, 1),
        ]
    );
}

#[test]
fn season_mode_searches_next_season_only() {
    // Season 1 is downloaded; season 2 is announced with nothing downloaded.
    let mut actor = Actor::new(Seen::default(), 2, true, None);
    let listing = || {
        episodes()
            .into_iter()
            .map(|e| EpisodeResource {
                has_file: e.season_number == 1,
                ..e
            })
            .collect()
    };
    let np = NowPlaying {
        series: Series::Title("TestShow".to_string()),
        episode: 7,
        season: 1,
        ..np_default()
    };
    let calls = drive(&mut actor, np, &|| vec![series_unmonitored()], &listing, &no_tags);
    assert_eq!(
        calls,
        vec![
            Call::ListSeries,
            Call::ListEpisodes(1234),
            Call::Put {
                monitored: true,
                seasons: vec![(1, false), (2, true)],
                new_items: Some(NewItemMonitorTypes::All),
            },
            Call::SearchSeason(1234, 2),
        ]
    );
}

#[test]
fn episode_mode_insufficient_data() {
    // Season 2 is listed from episode 2 on: a gap after season 1.
    let mut actor = Actor::new(Seen::default(), 3, false, None);
    let listing = || {
        episodes()
            .into_iter()
            .filter(|e| !(e.season_number == 2 && e.episode_number == 1))
            .collect()
    };
    let series = || {
        vec![SeriesResource {
            monitor_new_items: None,
            ..series_unmonitored()
        }]
    };
    let np = NowPlaying {
        series: Series::Title("TestShow".to_string()),
        episode: 7,
        season: 1,
        ..np_default()
    };
    let calls = drive(&mut actor, np, &series, &listing, &no_tags);
    assert_eq!(
        calls,
        vec![
            Call::ListSeries,
            Call::ListEpisodes(1234),
            Call::Put {
                monitored: true,
                seasons: vec![(1, false), (2, true)],
                new_items: Some(NewItemMonitorTypes::All),
            },
            Call::Monitor(vec![18]),
            Call::SearchEpisodes(vec![18]),
        ]
    );
}

#[test]
fn repeat_is_suppressed() {
    let mut actor = Actor::new(Seen::default(), 2, true, None);
    let np = NowPlaying {
        series: Series::Title("TestShow".to_string()),
        episode: 7,
        season: 1,
        ..np_default()
    };
    let first = drive(&mut actor, np.clone(), &|| vec![series_unmonitored()], &episodes, &no_tags);
    let second = drive(&mut actor, np, &|| vec![series_unmonitored()], &episodes, &no_tags);
    let listings = first
        .iter()
        .chain(second.iter())
        .filter(|c| **c == Call::ListSeries)
        .count();
    assert_eq!(listings, 1);
    assert!(second.is_empty());
}

#[test]
fn unknown_series_is_dropped() {
    let mut actor = Actor::new(Seen::default(), 2, true, None);
    let np = NowPlaying {
        series: Series::Title("Other".to_string()),
        ..np_default()
    };
    let calls = drive(&mut actor, np, &|| vec![series_unmonitored()], &episodes, &no_tags);
    assert_eq!(calls, vec![Call::ListSeries]);
    assert!(actor.is_idle());
}

#[test]
fn failed_listing_drops_event() {
    let mut actor = Actor::new(Seen::default(), 2, true, None);
    let request = actor.handle(Message::NowPlaying(np_default()));
    assert!(matches!(request, Request::ListSeries));
    assert!(matches!(actor.advance(Reply::Failed), Request::Idle));
    assert!(actor.is_idle());
}

#[test]
fn failed_put_aborts_episode_mode() {
    let mut actor = Actor::new(Seen::default(), 3, false, None);
    let np = NowPlaying {
        series: Series::Tvdb(5678),
        episode: 7,
        season: 1,
        ..np_default()
    };
    assert!(matches!(actor.handle(Message::NowPlaying(np)), Request::ListSeries));
    let r = actor.advance(Reply::Series(vec![series_unmonitored()]));
    assert!(matches!(r, Request::ListEpisodes { series_id: 1234 }));
    let r = actor.advance(Reply::Episodes(episodes()));
    assert!(matches!(r, Request::PutSeries { .. }));
    assert!(matches!(actor.advance(Reply::Failed), Request::Idle));
}

#[test]
fn failed_season_search_continues() {
    let mut actor = Actor::new(Seen::default(), 2, true, None);
    let np = NowPlaying {
        series: Series::Tvdb(5678),
        episode: 7,
        season: 1,
        ..np_default()
    };
    assert!(matches!(actor.handle(Message::NowPlaying(np)), Request::ListSeries));
    actor.advance(Reply::Series(vec![series_unmonitored()]));
    let r = actor.advance(Reply::Episodes(episodes()));
    assert!(matches!(r, Request::PutSeries { .. }));
    let r = actor.advance(Reply::Done);
    assert_eq!(call(&r), Call::SearchSeason(1234, 1));
    let r = actor.advance(Reply::Failed);
    assert_eq!(call(&r), Call::SearchSeason(1234, 2));
    assert!(matches!(actor.advance(Reply::Done), Request::Idle));
}

#[test]
fn excluded_series_is_left_alone() {
    let mut actor = Actor::new(Seen::default(), 2, true, Some("noprefetch".to_string()));
    let tags = || {
        Some(vec![
            TagResource {
                id: 3,
                label: "other".to_string(),
            },
            TagResource {
                id: 7,
                label: "noprefetch".to_string(),
            },
        ])
    };
    let tagged = || {
        vec![SeriesResource {
            tags: Some(vec![7]),
            ..series_unmonitored()
        }]
    };
    let np = NowPlaying {
        series: Series::Tvdb(5678),
        episode: 7,
        season: 1,
        ..np_default()
    };
    let calls = drive(&mut actor, np.clone(), &tagged, &episodes, &tags);
    assert_eq!(calls, vec![Call::ListSeries, Call::ListTags]);

    // The tag stays resolved: the next event does not list the tags again.
    let np = NowPlaying { season: 2, ..np };
    let calls = drive(&mut actor, np, &tagged, &episodes, &tags);
    assert_eq!(calls, vec![Call::ListSeries]);
}

#[test]
fn untagged_series_passes_exclusion() {
    let mut actor = Actor::new(Seen::default(), 1, false, Some("noprefetch".to_string()));
    let tags = || {
        Some(vec![TagResource {
            id: 7,
            label: "noprefetch".to_string(),
        }])
    };
    let np = NowPlaying {
        series: Series::Tvdb(5678),
        episode: 7,
        season: 1,
        ..np_default()
    };
    let calls = drive(&mut actor, np, &|| vec![series_unmonitored()], &episodes, &tags);
    assert_eq!(
        calls,
        vec![
            Call::ListSeries,
            Call::ListTags,
            Call::ListEpisodes(1234),
            Call::Put {
                monitored: true,
                seasons: vec![(1, false), (2, false)],
                new_items: Some(NewItemMonitorTypes::All),
            },
            Call::Monitor(vec![18]),
            Call::SearchEpisodes(vec![18]),
        ]
    );
}

#[test]
fn unresolved_tag_skips_exclusion_and_retries() {
    let mut actor = Actor::new(Seen::default(), 1, false, Some("noprefetch".to_string()));
    let tagged = || {
        vec![SeriesResource {
            tags: Some(vec![7]),
            ..series_unmonitored()
        }]
    };
    let np = NowPlaying {
        series: Series::Tvdb(5678),
        episode: 7,
        season: 1,
        ..np_default()
    };
    let calls = drive(&mut actor, np.clone(), &tagged, &episodes, &no_tags);
    assert_eq!(calls[1], Call::ListTags);
    assert_eq!(calls[2], Call::ListEpisodes(1234));

    let np = NowPlaying { season: 2, ..np };
    let calls = drive(&mut actor, np, &tagged, &episodes, &no_tags);
    assert_eq!(calls[1], Call::ListTags);
}

fn series_fully_monitored() -> SeriesResource {
    let mut series = series_unmonitored();
    series.monitored = true;
    for season in series.seasons.iter_mut() {
        season.monitored = true;
    }
    series
}

#[test]
fn no_write_when_nothing_changes_episode_mode() {
    // Only one episode follows (2, 7): fewer than asked for, but the series,
    // its last season and new items are all monitored already.
    let mut actor = Actor::new(Seen::default(), 3, false, None);
    let np = NowPlaying {
        series: Series::Tvdb(5678),
        episode: 7,
        season: 2,
        ..np_default()
    };
    let calls = drive(&mut actor, np, &|| vec![series_fully_monitored()], &episodes, &no_tags);
    assert_eq!(
        calls,
        vec![
            Call::ListSeries,
            Call::ListEpisodes(1234),
            Call::Monitor(vec![28]),
            Call::SearchEpisodes(vec![28]),
        ]
    );
}

#[test]
fn no_write_when_nothing_changes_season_mode() {
    let mut actor = Actor::new(Seen::default(), 3, true, None);
    let np = NowPlaying {
        series: Series::Tvdb(5678),
        episode: 7,
        season: 2,
        ..np_default()
    };
    let calls = drive(&mut actor, np, &|| vec![series_fully_monitored()], &episodes, &no_tags);
    assert_eq!(
        calls,
        vec![
            Call::ListSeries,
            Call::ListEpisodes(1234),
            Call::SearchSeason(1234, 2),
        ]
    );
}

#[test]
fn write_when_new_items_not_monitored() {
    let mut actor = Actor::new(Seen::default(), 3, false, None);
    let series = || {
        vec![SeriesResource {
            monitor_new_items: Some(NewItemMonitorTypes::NoItems),
            ..series_fully_monitored()
        }]
    };
    let np = NowPlaying {
        series: Series::Tvdb(5678),
        episode: 7,
        season: 2,
        ..np_default()
    };
    let calls = drive(&mut actor, np, &series, &episodes, &no_tags);
    assert_eq!(
        calls[2],
        Call::Put {
            monitored: true,
            seasons: vec![(1, true), (2, true)],
            new_items: Some(NewItemMonitorTypes::All),
        }
    );
}
