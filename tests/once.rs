use prefetcharr::media_server::{NowPlaying, Series, User};
use prefetcharr::util::once::{Seen, RETAIN_MILLIS};

fn now_playing() -> NowPlaying {
    let series = Series::Tvdb(1);
    let season = 3;
    let episode = 1;
    let user = User {
        name: "Hans".to_string(),
        id: "1234".to_string(),
    };
    let library = None;

    NowPlaying {
        series,
        episode,
        season,
        user,
        library,
    }
}

#[test]
fn once_twice() {
    let mut seen = Seen::default();
    let np = now_playing();
    assert!(seen.once(np.clone()));
    assert!(!seen.once(np));
}

#[test]
fn once_prune_old() {
    let mut seen = Seen::default();
    let np = now_playing();
    let touched = 1_000;

    assert!(seen.once_at(np.clone(), touched));
    assert!(seen.once_at(np, touched + RETAIN_MILLIS + 1));
}

#[test]
fn once_touch() {
    let mut seen = Seen::default();
    let np = now_playing();
    let now = RETAIN_MILLIS + 10_000;

    let touched = (now + 100) - RETAIN_MILLIS;
    assert!(seen.once_at(np.clone(), touched));
    assert!(!seen.once_at(np.clone(), now));

    // The hit did not refresh the entry: just past its expiry it is unseen.
    assert!(seen.once_at(np, now + 101));
}

#[test]
fn once_different_season() {
    let mut seen = Seen::default();
    let np_a = now_playing();
    let np_b = {
        let mut np = now_playing();
        np.season += 1;
        np
    };
    assert!(seen.once(np_a));
    assert!(seen.once(np_b));
}

#[test]
fn different_series() {
    let mut seen = Seen::default();
    let np1 = NowPlaying {
        series: Series::Tvdb(1),
        episode: 1,
        season: 1,
        ..now_playing()
    };
    let np2 = NowPlaying {
        series: Series::Tvdb(2),
        episode: 1,
        season: 1,
        ..now_playing()
    };
    assert!(seen.once(np1));
    assert!(seen.once(np2));
}

#[test]
fn once_within_window_is_a_repeat() {
    let mut seen = Seen::default();
    let np = now_playing();
    assert!(seen.once_at(np.clone(), 5_000));
    assert!(!seen.once_at(np.clone(), 5_000 + RETAIN_MILLIS));
}

#[test]
fn once_hit_does_not_refresh() {
    let mut seen = Seen::default();
    let np = now_playing();
    assert!(seen.once_at(np.clone(), 0));
    assert!(!seen.once_at(np.clone(), RETAIN_MILLIS));
    assert!(seen.once_at(np.clone(), RETAIN_MILLIS + 1));
    assert!(!seen.once_at(np, RETAIN_MILLIS + 2));
}

#[test]
fn once_other_user_is_another_event() {
    let mut seen = Seen::default();
    let np = now_playing();
    let other = NowPlaying {
        user: User {
            name: "Grete".to_string(),
            id: "5678".to_string(),
        },
        ..now_playing()
    };
    assert!(seen.once_at(np, 10));
    assert!(seen.once_at(other, 10));
}

#[test]
fn once_title_identity() {
    let mut seen = Seen::default();
    let np = NowPlaying {
        series: Series::Title("Show".to_string()),
        library: Some("TV".to_string()),
        ..now_playing()
    };
    assert!(seen.once_at(np.clone(), 10));
    assert!(!seen.once_at(np.clone(), 11));
    let other_library = NowPlaying {
        library: None,
        ..np.clone()
    };
    assert!(seen.once_at(other_library, 12));
}
