use prefetcharr::media_server::{
    library_of, parse_i32, starts_with, tvdb_from_guid, tvdb_from_guids, VirtualFolderInfo,
};

#[test]
fn tvdb_guid_parses_id() {
    assert_eq!(tvdb_from_guid("tvdb://1234"), Some(1234));
    assert_eq!(tvdb_from_guid("tvdb://-5"), Some(-5));
    assert_eq!(tvdb_from_guid("tvdb://+7"), Some(7));
}

#[test]
fn tvdb_guid_rejects_others() {
    assert_eq!(tvdb_from_guid("ignore"), None);
    assert_eq!(tvdb_from_guid("ignore://"), None);
    assert_eq!(tvdb_from_guid("://ignore"), None);
    assert_eq!(tvdb_from_guid("ignore://0"), None);
    assert_eq!(tvdb_from_guid("tvdb://"), None);
    assert_eq!(tvdb_from_guid("tvdb://12x"), None);
    assert_eq!(tvdb_from_guid("tvdb://99999999999"), None);
    assert_eq!(tvdb_from_guid("imdb://1234"), None);
    assert_eq!(tvdb_from_guid("tvdb:/1234"), None);
}

#[test]
fn tvdb_guid_splits_at_first_separator() {
    assert_eq!(tvdb_from_guid("tvdb://12://3"), None);
    assert_eq!(tvdb_from_guid("tv://db://12"), None);
}

#[test]
fn tvdb_guids_takes_first_match() {
    let guids: Vec<String> = ["ignore", "ignore://", "://ignore", "ignore://0", "tvdb://1234", "tvdb://99"]
        .iter()
        .map(|s| s.to_string())
        .collect();
    assert_eq!(tvdb_from_guids(&guids), Some(1234));
    assert_eq!(tvdb_from_guids(&vec!["imdb://1".to_string()]), None);
    assert_eq!(tvdb_from_guids(&vec![]), None);
}

#[test]
fn starts_with_prefix() {
    assert!(starts_with("/media/tv/a/b/c.mkv", "/media/tv"));
    assert!(starts_with("/media/tv", ""));
    assert!(!starts_with("/media/tv", "/media/tv/a"));
    assert!(!starts_with("/media/KidsTV/x", "/media/tv"));
}

fn folder(name: &str, locations: &[&str]) -> VirtualFolderInfo {
    VirtualFolderInfo {
        name: name.to_string(),
        locations: locations.iter().map(|l| l.to_string()).collect(),
    }
}

#[test]
fn library_of_path() {
    let folders = vec![
        folder("Kids Movies", &["/media/KidsMovies"]),
        folder("Kids TV Shows", &["/media/KidsTV"]),
        folder("Movies", &["/media/Movies"]),
        folder("Playlists", &["/config/data/playlists", "/config/data/userplaylists"]),
        folder("TV Shows", &["/media/tv"]),
        folder("Collections", &[]),
    ];
    assert_eq!(
        library_of(&folders, "/media/tv/a/b/c.mkv"),
        Some("TV Shows".to_string())
    );
    assert_eq!(
        library_of(&folders, "/config/data/userplaylists/x"),
        Some("Playlists".to_string())
    );
    assert_eq!(library_of(&folders, "/elsewhere/x.mkv"), None);
}

#[test]
fn parse_i32_matches_std() {
    for text in [
        "0", "+0", "-0", "42", "-42", "+42", "007", "2147483647", "-2147483648", "2147483648",
        "-2147483649", "99999999999999999999", "", "-", "+", " 1", "1 ", "1_000", "--1", "+-1",
        "١٢", "0x10",
    ] {
        assert_eq!(parse_i32(text), text.parse::<i32>().ok(), "parsing {text:?}");
    }
    assert_eq!(parse_i32("-2147483648"), Some(i32::MIN));
    assert_eq!(parse_i32("2147483648"), None);
}
