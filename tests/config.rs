use prefetcharr::config::{Config, Fork, LegacyArgs, ServerKind};

#[test]
fn legacy_arguments_request_seasons() {
    let args = LegacyArgs {
        media_server_type: ServerKind::Plex,
        media_server_url: "http://plex".to_string(),
        media_server_api_key: "key".to_string(),
        sonarr_url: "http://sonarr".to_string(),
        sonarr_api_key: "secret".to_string(),
        interval: 900,
        log_dir: None,
        remaining_episodes: 2,
        users: vec!["user".to_string()],
        connection_retries: 3,
        libraries: vec![],
    };
    let config = Config::from(args);
    assert_eq!(config.media_server.kind, ServerKind::Plex);
    assert_eq!(config.media_server.url, "http://plex");
    assert_eq!(config.sonarr.api_key, "secret");
    assert_eq!(config.interval, 900);
    assert_eq!(config.prefetch_num, 2);
    assert!(config.request_seasons);
    assert!(config.legacy);
    assert_eq!(config.log_level, None);
    assert_eq!(config.exclude_tag, None);
    assert_eq!(config.connection_retries, 3);
    assert_eq!(config.media_server.users, vec!["user".to_string()]);
}

#[test]
fn fork_of_server_kind() {
    assert_eq!(Fork::try_from(ServerKind::Jellyfin), Some(Fork::Jellyfin));
    assert_eq!(Fork::try_from(ServerKind::Emby), Some(Fork::Emby));
    assert_eq!(Fork::try_from(ServerKind::Plex), None);
    assert_eq!(Fork::try_from(ServerKind::Tautulli), None);
}

#[test]
fn server_kind_names() {
    assert_eq!(ServerKind::Jellyfin.name(), "Jellyfin");
    assert_eq!(ServerKind::Emby.name(), "Emby");
    assert_eq!(ServerKind::Plex.name(), "Plex");
    assert_eq!(ServerKind::Tautulli.name(), "Tautulli");
}
