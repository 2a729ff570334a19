//! Settings of a run, as read from a configuration file or from legacy
//! command-line arguments.
use vstd::prelude::*;

verus! {

/// The kind of media server to watch.
#[derive(Clone, Copy, Debug, PartialEq, Eq, Structural)]
pub enum ServerKind {
    Jellyfin,
    Emby,
    Plex,
    Tautulli,
}

impl ServerKind {
    /// The server's product name.
    pub fn name(&self) -> (r: &'static str)
        ensures
            *self == ServerKind::Jellyfin ==> r@ == "Jellyfin"@,
            *self == ServerKind::Emby ==> r@ == "Emby"@,
            *self == ServerKind::Plex ==> r@ == "Plex"@,
            *self == ServerKind::Tautulli ==> r@ == "Tautulli"@,
    {
        match self {
            ServerKind::Jellyfin => "Jellyfin",
            ServerKind::Emby => "Emby",
            ServerKind::Plex => "Plex",
            ServerKind::Tautulli => "Tautulli",
        }
    }
}

/// Which of the two related servers an Emby/Jellyfin client talks to.
#[derive(Clone, Copy, Debug, PartialEq, Eq, Structural)]
pub enum Fork {
    Jellyfin,
    Emby,
}

impl Fork {
    /// The fork for a server kind; `None` for a server that is neither Emby
    /// nor Jellyfin.
    pub fn try_from(value: ServerKind) -> (r: Option<Fork>)
        ensures
            value == ServerKind::Jellyfin ==> r == Some(Fork::Jellyfin),
            value == ServerKind::Emby ==> r == Some(Fork::Emby),
            value == ServerKind::Plex || value == ServerKind::Tautulli ==> r.is_none(),
    {
        match value {
            ServerKind::Jellyfin => Some(Fork::Jellyfin),
            ServerKind::Emby => Some(Fork::Emby),
            ServerKind::Plex | ServerKind::Tautulli => None,
        }
    }
}

/// The media server to watch, and whose sessions count.
#[derive(Debug)]
pub struct MediaServer {
    pub kind: ServerKind,
    /// Base URL.
    pub url: String,
    /// API key or server token.
    pub api_key: String,
    /// User ids or names to watch for (empty: all users).
    pub users: Vec<String>,
    /// Library names to watch for (empty: all libraries).
    pub libraries: Vec<String>,
}

/// The PVR to drive.
#[derive(Debug)]
pub struct Sonarr {
    /// Base URL.
    pub url: String,
    pub api_key: String,
}

/// How much to log.
#[derive(Clone, Copy, Debug, PartialEq, Eq, Structural)]
pub enum LogLevel {
    Trace,
    Debug,
    Info,
    Warn,
    Error,
}

/// The settings of a run.
#[derive(Debug)]
pub struct Config {
    pub media_server: MediaServer,
    pub sonarr: Sonarr,
    /// Polling interval, in seconds.
    pub interval: u64,
    /// Logging directory.
    pub log_dir: Option<String>,
    pub log_level: Option<LogLevel>,
    /// Number of episodes to make available in advance.
    pub prefetch_num: usize,
    /// Always request full seasons, to prefer season packs.
    pub request_seasons: bool,
    /// Number of retries of the connection probes at startup.
    pub connection_retries: usize,
    /// Exclude the series that carry the tag with this label.
    pub exclude_tag: Option<String>,
    /// The settings came from legacy command-line arguments.
    pub legacy: bool,
}

/// The settings as legacy command-line arguments give them.
#[derive(Debug)]
pub struct LegacyArgs {
    pub media_server_type: ServerKind,
    pub media_server_url: String,
    pub media_server_api_key: String,
    pub sonarr_url: String,
    pub sonarr_api_key: String,
    pub interval: u64,
    pub log_dir: Option<String>,
    /// The last this many episodes trigger a search.
    pub remaining_episodes: u8,
    pub users: Vec<String>,
    pub connection_retries: usize,
    pub libraries: Vec<String>,
}

impl From<LegacyArgs> for Config {
    /// Legacy arguments always request whole seasons, log by the environment's
    /// filter and exclude nothing.
    fn from(args: LegacyArgs) -> (r: Config)
        ensures
            r == legacy_config(args),
    {
        let LegacyArgs {
            media_server_type,
            media_server_url,
            media_server_api_key,
            sonarr_url,
            sonarr_api_key,
            interval,
            log_dir,
            remaining_episodes,
            users,
            connection_retries,
            libraries,
        } = args;
        Config {
            media_server: MediaServer {
                kind: media_server_type,
                url: media_server_url,
                api_key: media_server_api_key,
                users,
                libraries,
            },
            sonarr: Sonarr { url: sonarr_url, api_key: sonarr_api_key },
            interval,
            log_dir,
            log_level: None,
            prefetch_num: remaining_episodes as usize,
            request_seasons: true,
            connection_retries,
            exclude_tag: None,
            legacy: true,
        }
    }
}

impl vstd::std_specs::convert::FromSpecImpl<LegacyArgs> for Config {
    open spec fn obeys_from_spec() -> bool {
        true
    }

    open spec fn from_spec(args: LegacyArgs) -> Config {
        legacy_config(args)
    }
}

/// The settings that legacy arguments give.
pub open spec fn legacy_config(args: LegacyArgs) -> Config {
    Config {
        media_server: MediaServer {
            kind: args.media_server_type,
            url: args.media_server_url,
            api_key: args.media_server_api_key,
            users: args.users,
            libraries: args.libraries,
        },
        sonarr: Sonarr { url: args.sonarr_url, api_key: args.sonarr_api_key },
        interval: args.interval,
        log_dir: args.log_dir,
        log_level: None,
        prefetch_num: args.remaining_episodes as usize,
        request_seasons: true,
        connection_retries: args.connection_retries,
        exclude_tag: None,
        legacy: true,
    }
}

} // verus!
