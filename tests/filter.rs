use prefetcharr::filter;
use prefetcharr::media_server::{NowPlaying, Series, User};

fn np_default() -> NowPlaying {
    NowPlaying {
        series: Series::Tvdb(0),
        episode: 0,
        season: 0,
        user: User {
            name: String::new(),
            id: String::new(),
        },
        library: None,
    }
}

#[test]
fn users_unrestricted() {
    assert!(filter::users(&[], &np_default()));
}

#[test]
fn users_accepted_by_name() {
    let users = vec!["Other".to_string(), "User".to_string()];
    let np = NowPlaying {
        user: User {
            id: "1".to_string(),
            name: "User".to_string(),
        },
        ..np_default()
    };
    assert!(filter::users(users.as_slice(), &np));
}

#[test]
fn users_accepted_by_id() {
    let users = vec!["1".to_string(), "2".to_string()];
    let np = NowPlaying {
        user: User {
            id: "1".to_string(),
            name: "User".to_string(),
        },
        ..np_default()
    };
    assert!(filter::users(users.as_slice(), &np));
}

#[test]
fn users_rejected() {
    let users = vec!["Nope".to_string()];
    let np = NowPlaying { ..np_default() };
    assert!(!filter::users(users.as_slice(), &np));
}

#[test]
fn libraries_unrestricted() {
    assert!(filter::libraries(&[], &np_default()));
}

#[test]
fn libraries_accepted() {
    let libraries = vec!["Movies".to_string(), "TV".to_string()];
    let np = NowPlaying {
        library: Some("TV".to_string()),
        ..np_default()
    };
    assert!(filter::libraries(libraries.as_slice(), &np));
}

#[test]
fn libraries_unknown_rejected() {
    let libraries = vec!["Nope".to_string()];
    let np = NowPlaying {
        library: None,
        ..np_default()
    };
    assert!(!filter::libraries(libraries.as_slice(), &np));
}

#[test]
fn libraries_rejected() {
    let libraries = vec!["TV".to_string()];
    let np = NowPlaying {
        library: Some("Movies".to_string()),
        ..np_default()
    };
    assert!(!filter::libraries(libraries.as_slice(), &np));
}
