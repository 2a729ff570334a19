//! Prefetches upcoming episodes: turns "now playing" events from a media
//! server into monitoring changes and search commands for a PVR.
use vstd::prelude::*;

pub mod config;
pub mod filter;
pub mod media_server;
pub mod process;
pub mod sonarr;
pub mod util;

use crate::media_server::NowPlaying;

verus! {

/// An event for the decision engine.
#[derive(Debug)]
pub enum Message {
    NowPlaying(NowPlaying),
}

} // verus!
