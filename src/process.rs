//! The decision engine: turns each "now playing" event into requests to the
//! PVR, one at a time.
//!
//! The engine does no I/O. A driver hands it an event with
//! [`Actor::handle`], performs the [`Request`] it gets back, and reports the
//! outcome with [`Actor::advance`], until the request is [`Request::Idle`].
use crate::media_server::{NowPlaying, NowPlayingView};
use crate::sonarr::{
    any_unmonitored, carries_tag, selected, clone_ids, episode_ids, episode_window, find_series, first_index,
    identified, lemma_first_index, monitor_episodes, resolve_tag, search_episodes, search_season,
    season_numbers, seasons_monitored, tag_labels, window, with_season_monitored,
    EpisodeMonitoredResource, EpisodeResource, NewItemMonitorTypes, SeasonResource,
    SeriesResource, SeriesView, Tag, TagResource,
};
use crate::util::once::{after_once, fresh, seen_at, Seen, RETAIN_MILLIS};
use crate::Message;
use vstd::prelude::*;

verus! {

/// What the driver must do next.
#[derive(Debug)]
pub enum Request {
    /// List all series.
    ListSeries,
    /// List all tags.
    ListTags,
    /// List the episodes of a series.
    ListEpisodes { series_id: i32 },
    /// Write a whole series back.
    PutSeries { series: SeriesResource },
    /// Set the monitoring flag of episodes.
    MonitorEpisodes { body: EpisodeMonitoredResource },
    /// Issue one search command for several episodes.
    SearchEpisodes { episode_ids: Vec<i32> },
    /// Issue a search command for one season of a series.
    SearchSeason { series_id: i32, season_number: i32 },
    /// Nothing: the event is done with, the next one may come.
    Idle,
}

pub enum RequestView {
    ListSeries,
    ListTags,
    ListEpisodes(i32),
    PutSeries(SeriesView),
    MonitorEpisodes(Seq<i32>, bool),
    SearchEpisodes(Seq<i32>),
    SearchSeason(i32, i32),
    Idle,
}

impl View for Request {
    type V = RequestView;

    open spec fn view(&self) -> RequestView {
        match self {
            Request::ListSeries => RequestView::ListSeries,
            Request::ListTags => RequestView::ListTags,
            Request::ListEpisodes { series_id } => RequestView::ListEpisodes(*series_id),
            Request::PutSeries { series } => RequestView::PutSeries(series@),
            Request::MonitorEpisodes { body } => RequestView::MonitorEpisodes(
                body.episode_ids@,
                body.monitored,
            ),
            Request::SearchEpisodes { episode_ids } => RequestView::SearchEpisodes(episode_ids@),
            Request::SearchSeason { series_id, season_number } => RequestView::SearchSeason(
                *series_id,
                *season_number,
            ),
            Request::Idle => RequestView::Idle,
        }
    }
}

impl Clone for Request {
    fn clone(&self) -> (r: Request)
        ensures
            r@ == self@,
    {
        match self {
            Request::ListSeries => Request::ListSeries,
            Request::ListTags => Request::ListTags,
            Request::ListEpisodes { series_id } => Request::ListEpisodes { series_id: *series_id },
            Request::PutSeries { series } => Request::PutSeries { series: series.clone() },
            Request::MonitorEpisodes { body } => Request::MonitorEpisodes {
                body: EpisodeMonitoredResource {
                    episode_ids: clone_ids(&body.episode_ids),
                    monitored: body.monitored,
                },
            },
            Request::SearchEpisodes { episode_ids } => Request::SearchEpisodes {
                episode_ids: clone_ids(episode_ids),
            },
            Request::SearchSeason { series_id, season_number } => Request::SearchSeason {
                series_id: *series_id,
                season_number: *season_number,
            },
            Request::Idle => Request::Idle,
        }
    }
}

/// What the driver reports back.
#[derive(Debug)]
pub enum Reply {
    /// The series listing, without the entries that did not parse.
    Series(Vec<SeriesResource>),
    /// The tag listing.
    Tags(Vec<TagResource>),
    /// The episode listing of the series.
    Episodes(Vec<EpisodeResource>),
    /// The write or command went through.
    Done,
    /// The request failed.
    Failed,
}

pub enum ReplyView {
    Series(Seq<SeriesResource>),
    Tags(Seq<TagResource>),
    Episodes(Seq<EpisodeResource>),
    Done,
    Failed,
}

impl View for Reply {
    type V = ReplyView;

    open spec fn view(&self) -> ReplyView {
        match self {
            Reply::Series(s) => ReplyView::Series(s@),
            Reply::Tags(t) => ReplyView::Tags(t@),
            Reply::Episodes(e) => ReplyView::Episodes(e@),
            Reply::Done => ReplyView::Done,
            Reply::Failed => ReplyView::Failed,
        }
    }
}

/// What a failed step of a script leads to.
#[derive(Clone, Copy, Debug, PartialEq, Eq, Structural)]
pub enum Recovery {
    /// Give up the rest of the event.
    Abort,
    /// Go on with the next step.
    Continue,
    /// Skip the next step (the search that the failed write prepared).
    SkipNext,
}

/// One request of a script, and what its failure leads to.
#[derive(Debug)]
pub struct Step {
    pub request: Request,
    pub on_failure: Recovery,
}

/// The requests that follow the episode listing of one event.
pub type Script = Seq<(RequestView, Recovery)>;

/// The monitoring baseline: the series monitored and, where fewer episodes
/// came back than were asked for, its last season monitored and new items
/// monitored, since more may be announced.
pub open spec fn baseline(series: SeriesView, fetched: nat, wanted: nat) -> SeriesView {
    let monitored = SeriesView { monitored: true, ..series };
    if fetched < wanted {
        SeriesView {
            monitor_new_items: Some(NewItemMonitorTypes::All),
            seasons: if series.seasons.len() == 0 {
                series.seasons
            } else {
                series.seasons.update(
                    series.seasons.len() - 1,
                    SeasonResource { monitored: true, ..series.seasons.last() },
                )
            },
            ..monitored
        }
    } else {
        monitored
    }
}

/// The episodes of `w` that have no file yet, in order.
pub open spec fn missing(w: Seq<EpisodeResource>) -> Seq<EpisodeResource> {
    w.filter(|e: EpisodeResource| !e.has_file)
}

/// Some episode of `w` in season `n` has no file.
pub open spec fn has_missing(w: Seq<EpisodeResource>, n: i32) -> bool {
    exists|i: int| 0 <= i < w.len() && !w[i].has_file && #[trigger] w[i].season_number == n
}

/// Each number of `v` is smaller than the next.
pub open spec fn strictly_ascending(v: Seq<i32>) -> bool {
    forall|i: int, j: int| 0 <= i < j < v.len() ==> v[i] < v[j]
}

/// `v` lists, ascending and without repeats, the seasons of `w` that have an
/// episode without a file.
pub open spec fn lists_missing_seasons(v: Seq<i32>, w: Seq<EpisodeResource>) -> bool {
    &&& strictly_ascending(v)
    &&& forall|n: i32| v.contains(n) <==> has_missing(w, n)
}

/// The season numbers of the episodes of `w` that have no file, ascending
/// and without repeats.
pub open spec fn missing_seasons(w: Seq<EpisodeResource>) -> Seq<i32> {
    choose|v: Seq<i32>| lists_missing_seasons(v, w)
}

/// Two ascending sequences without repeats that hold the same numbers are
/// the same sequence.
proof fn lemma_ascending_unique(u: Seq<i32>, v: Seq<i32>)
    requires
        strictly_ascending(u),
        strictly_ascending(v),
        forall|n: i32| u.contains(n) <==> v.contains(n),
    ensures
        u == v,
    decreases u.len(),
{
    if u.len() == 0 {
        if v.len() > 0 {
            assert(v.contains(v[0]));
        }
        assert(u =~= v);
    } else {
        assert(u.contains(u[0]));
        assert(v.len() > 0);
        assert(v.contains(v[0]));
        let k = choose|k: int| 0 <= k < v.len() && v[k] == u[0];
        let m = choose|m: int| 0 <= m < u.len() && u[m] == v[0];
        assert(u[0] == v[0]) by {
            if k > 0 {
                assert(v[0] < v[k]);
            }
            if m > 0 {
                assert(u[0] < u[m]);
            }
        }
        let u1 = u.drop_first();
        let v1 = v.drop_first();
        assert forall|n: i32| u1.contains(n) <==> v1.contains(n) by {
            if u1.contains(n) {
                let i = choose|i: int| 0 <= i < u1.len() && u1[i] == n;
                assert(u[i + 1] == n && u[0] < u[i + 1]);
                assert(v.contains(n));
                let j = choose|j: int| 0 <= j < v.len() && v[j] == n;
                assert(j > 0);
                assert(v1[j - 1] == n);
            }
            if v1.contains(n) {
                let i = choose|i: int| 0 <= i < v1.len() && v1[i] == n;
                assert(v[i + 1] == n && v[0] < v[i + 1]);
                assert(u.contains(n));
                let j = choose|j: int| 0 <= j < u.len() && u[j] == n;
                assert(j > 0);
                assert(u1[j - 1] == n);
            }
        }
        lemma_ascending_unique(u1, v1);
        assert(u =~= seq![u[0]] + u1);
        assert(v =~= seq![v[0]] + v1);
    }
}

/// The steps that search season `num` of `series`: a write that monitors
/// the season and the series where one of them is not, then the search. None
/// where the series has no such season.
///
/// The season's episodes need no request of their own: when a series write
/// turns a season's flag on, the PVR sets the flag of each of that season's
/// episodes to match, so the write is what monitors them before the search.
pub open spec fn season_steps(series: SeriesView, num: i32) -> Script {
    match first_index(season_numbers(series.seasons), num) {
        None => Seq::empty(),
        Some(i) => if series.seasons[i].monitored && series.monitored {
            seq![(RequestView::SearchSeason(series.id, num), Recovery::Continue)]
        } else {
            seq![
                (RequestView::PutSeries(with_season_monitored(series, i)), Recovery::SkipNext),
                (RequestView::SearchSeason(series.id, num), Recovery::Continue),
            ]
        },
    }
}

/// The season searches for each of `nums`, in order.
pub open spec fn seasons_steps(series: SeriesView, nums: Seq<i32>) -> Script
    decreases nums.len(),
{
    if nums.len() == 0 {
        Seq::empty()
    } else {
        seasons_steps(series, nums.drop_last()) + season_steps(series, nums.last())
    }
}

/// A write of the whole series where it changed.
pub open spec fn put_step(series: SeriesView, changed: bool) -> Script {
    if changed {
        seq![(RequestView::PutSeries(series), Recovery::Abort)]
    } else {
        Seq::empty()
    }
}

/// The script for a series once its episode window `w` is known, `wanted`
/// episodes having been asked for. In season mode the seasons of the missing
/// episodes are monitored, the series written if it changed, and each season
/// searched; a failed season search does not stop the others. In episode mode
/// the series is written if it changed, then the missing episodes are
/// monitored and searched in one batch.
pub open spec fn script(
    series: SeriesView,
    w: Seq<EpisodeResource>,
    wanted: nat,
    request_seasons: bool,
) -> Script {
    let kept = kept_record(series, w, wanted, request_seasons);
    if request_seasons {
        put_step(kept, kept != series) + seasons_steps(kept, missing_seasons(w))
    } else {
        let ids = episode_ids(missing(w));
        put_step(kept, kept != series) + seq![
            (RequestView::MonitorEpisodes(ids, true), Recovery::Abort),
            (RequestView::SearchEpisodes(ids), Recovery::Abort),
        ]
    }
}

/// The record of the series that the engine keeps for an event: the
/// baseline and, in season mode, the seasons to search monitored too.
pub open spec fn kept_record(
    series: SeriesView,
    w: Seq<EpisodeResource>,
    wanted: nat,
    request_seasons: bool,
) -> SeriesView {
    let b = baseline(series, w.len(), wanted);
    if request_seasons {
        SeriesView { seasons: seasons_monitored(b.seasons, missing_seasons(w)), ..b }
    } else {
        b
    }
}

/// The baseline flips a flag of `series`: the series is not monitored, or
/// fewer episodes came back than were asked for and the last season is not
/// monitored or new items are not all monitored.
pub open spec fn baseline_changes(series: SeriesView, fetched: nat, wanted: nat) -> bool {
    ||| !series.monitored
    ||| fetched < wanted && series.seasons.len() > 0 && !series.seasons.last().monitored
    ||| fetched < wanted && series.monitor_new_items != Some(NewItemMonitorTypes::All)
}

/// The baseline differs from the series exactly when it flips a flag.
proof fn lemma_baseline_changes(series: SeriesView, fetched: nat, wanted: nat)
    ensures
        (baseline(series, fetched, wanted) != series) == baseline_changes(series, fetched, wanted),
{
    let b = baseline(series, fetched, wanted);
    let n = series.seasons.len();
    if !series.monitored {
        assert(b.monitored != series.monitored);
    } else if fetched < wanted && n > 0 && !series.seasons.last().monitored {
        assert(b.seasons[n - 1].monitored != series.seasons[n - 1].monitored);
        assert(b.seasons != series.seasons);
    } else if fetched < wanted && series.monitor_new_items != Some(NewItemMonitorTypes::All) {
        assert(b.monitor_new_items != series.monitor_new_items);
    } else {
        if fetched < wanted && n > 0 {
            assert(SeasonResource { monitored: true, ..series.seasons.last() } == series.seasons[n
                - 1]);
        }
        assert(b.seasons =~= series.seasons);
        assert(b == series);
    }
}

/// In season mode the record to write differs from the series exactly when
/// the baseline changed it or one of the seasons to search is not monitored.
proof fn lemma_season_write_needed(series: SeriesView, fetched: nat, wanted: nat, nums: Seq<i32>)
    ensures
        ({
            let b = baseline(series, fetched, wanted);
            let s = SeriesView { seasons: seasons_monitored(b.seasons, nums), ..b };
            (s != series) == (b != series || any_unmonitored(b.seasons, nums))
        }),
{
    let b = baseline(series, fetched, wanted);
    let s = SeriesView { seasons: seasons_monitored(b.seasons, nums), ..b };
    let n = series.seasons.len();
    if any_unmonitored(b.seasons, nums) {
        let i = choose|i: int|
            0 <= i < b.seasons.len() && selected(b.seasons, nums, i) && !#[trigger] b.seasons[i].monitored;
        assert(s.seasons[i].monitored);
        if fetched < wanted && n > 0 && i == n - 1 {
            assert(b.seasons[i].monitored);
        }
        assert(b.seasons[i] == series.seasons[i]);
        assert(s.seasons[i] != series.seasons[i]);
    } else {
        assert forall|i: int| 0 <= i < b.seasons.len() implies #[trigger] s.seasons[i] == b.seasons[i] by {
            if selected(b.seasons, nums, i) {
                assert(b.seasons[i].monitored);
            }
        }
        assert(s.seasons =~= b.seasons);
        assert(s == b);
    }
}

/// The requests and recoveries of `steps`.
pub open spec fn steps_view(steps: Seq<Step>) -> Script {
    Seq::new(steps.len(), |i: int| (steps[i].request@, steps[i].on_failure))
}

fn missing_episodes(w: &Vec<EpisodeResource>) -> (r: Vec<EpisodeResource>)
    ensures
        r@ == missing(w@),
{
    let mut r: Vec<EpisodeResource> = Vec::new();
    let mut i: usize = 0;
    while i < w.len()
        invariant
            i <= w@.len(),
            r@ == missing(w@.take(i as int)),
        decreases w@.len() - i,
    {
        assert(w@.take(i as int + 1).drop_last() =~= w@.take(i as int));
        assert(w@.take(i as int + 1).last() == w@[i as int]);
        proof {
            reveal(Seq::filter);
        }
        if !w[i].has_file {
            r.push(w[i]);
        }
        i = i + 1;
    }
    assert(w@.take(w@.len() as int) =~= w@);
    proof {
        reveal(Seq::filter);
    }
    r
}

/// Putting `x` at `p`, after the numbers below it and before those above,
/// keeps `t` ascending and adds exactly `x`.
proof fn lemma_insert_ascending(t: Seq<i32>, p: int, x: i32)
    requires
        strictly_ascending(t),
        0 <= p <= t.len(),
        forall|j: int| 0 <= j < p ==> t[j] < x,
        forall|j: int| p <= j < t.len() ==> t[j] > x,
    ensures
        strictly_ascending(t.insert(p, x)),
        forall|y: i32| t.insert(p, x).contains(y) <==> (t.contains(y) || y == x),
{
    let r = t.insert(p, x);
    assert forall|i: int, j: int| 0 <= i < j < r.len() implies r[i] < r[j] by {
        if j < p {
            assert(r[i] == t[i] && r[j] == t[j]);
        } else if j == p {
            assert(r[i] == t[i]);
        } else if i < p {
            assert(r[i] == t[i] && r[j] == t[j - 1]);
        } else if i == p {
            assert(r[j] == t[j - 1]);
        } else {
            assert(r[i] == t[i - 1] && r[j] == t[j - 1]);
        }
    }
    assert forall|y: i32| r.contains(y) <==> (t.contains(y) || y == x) by {
        if r.contains(y) {
            let i = choose|i: int| 0 <= i < r.len() && r[i] == y;
            if i < p {
                assert(t[i] == y);
            } else if i > p {
                assert(t[i - 1] == y);
            }
        }
        if t.contains(y) {
            let i = choose|i: int| 0 <= i < t.len() && t[i] == y;
            if i < p {
                assert(r[i] == y);
            } else {
                assert(r[i + 1] == y);
            }
        }
        if y == x {
            assert(r[p] == x);
        }
    }
}

/// `x` belongs at `p` of `v`: after the numbers below it, before those
/// above it.
pub open spec fn is_place(v: Seq<i32>, x: i32, p: int) -> bool {
    0 <= p <= v.len() && (forall|j: int| 0 <= j < p ==> v[j] < x) && (forall|j: int|
        p <= j < v.len() ==> v[j] > x)
}

/// A number missing from an ascending sequence has a place in it.
proof fn lemma_place_exists(v: Seq<i32>, x: i32)
    requires
        strictly_ascending(v),
        !v.contains(x),
    ensures
        exists|p: int| #[trigger] is_place(v, x, p),
    decreases v.len(),
{
    if v.len() == 0 {
        assert(is_place(v, x, 0));
    } else {
        let n = v.len() - 1;
        if v[n] < x {
            assert forall|j: int| 0 <= j < v.len() implies v[j] < x by {
                if j < n {
                    assert(v[j] < v[n]);
                }
            }
            assert(is_place(v, x, v.len() as int));
        } else {
            assert(v[n] != x);
            let u = v.drop_last();
            assert(!u.contains(x)) by {
                if u.contains(x) {
                    let i = choose|i: int| 0 <= i < u.len() && u[i] == x;
                    assert(v[i] == x);
                }
            }
            lemma_place_exists(u, x);
            let p = choose|p: int| #[trigger] is_place(u, x, p);
            assert(forall|j: int| 0 <= j < p ==> v[j] < x) by {
                assert(forall|j: int| 0 <= j < p ==> v[j] == u[j]);
            }
            assert(forall|j: int| p <= j < v.len() ==> v[j] > x) by {
                assert(forall|j: int| p <= j < n ==> v[j] == u[j]);
            }
            assert(is_place(v, x, p));
        }
    }
}

/// Every window has its list of missing seasons.
pub proof fn lemma_missing_seasons(w: Seq<EpisodeResource>)
    ensures
        lists_missing_seasons(missing_seasons(w), w),
    decreases w.len(),
{
    if w.len() == 0 {
        assert(lists_missing_seasons(Seq::<i32>::empty(), w));
    } else {
        let u = w.drop_last();
        lemma_missing_seasons(u);
        let v = missing_seasons(u);
        let e = w.last();
        let x = e.season_number;
        assert forall|n: i32| has_missing(w, n) <==> (has_missing(u, n) || (!e.has_file && n == x)) by {
            if has_missing(w, n) {
                let k = choose|k: int| 0 <= k < w.len() && !w[k].has_file && #[trigger] w[k].season_number == n;
                if k < w.len() - 1 {
                    assert(u[k] == w[k]);
                }
            }
            if has_missing(u, n) {
                let k = choose|k: int| 0 <= k < u.len() && !u[k].has_file && #[trigger] u[k].season_number == n;
                assert(w[k] == u[k]);
            }
            if !e.has_file && n == x {
                assert(w[w.len() - 1] == e);
            }
        }
        if e.has_file || v.contains(x) {
            assert(lists_missing_seasons(v, w));
        } else {
            lemma_place_exists(v, x);
            let p = choose|p: int| #[trigger] is_place(v, x, p);
            lemma_insert_ascending(v, p, x);
            assert(lists_missing_seasons(v.insert(p, x), w));
        }
    }
}

fn add_season_to(v: &mut Vec<i32>, x: i32)
    requires
        strictly_ascending(old(v)@),
    ensures
        strictly_ascending(final(v)@),
        forall|y: i32| final(v)@.contains(y) <==> (old(v)@.contains(y) || y == x),
{
    let ghost t = v@;
    let mut p: usize = v.len();
    while p > 0 && v[p - 1] > x
        invariant
            p <= t.len(),
            v@ == t,
            forall|j: int| p <= j < t.len() ==> t[j] > x,
        decreases p,
    {
        p = p - 1;
    }
    if p > 0 && v[p - 1] == x {
        assert(t.contains(x) && t[p - 1] == x);
    } else {
        proof {
            if p > 0 {
                assert forall|j: int| 0 <= j < p implies t[j] < x by {
                    if j < p - 1 {
                        assert(t[j] < t[p - 1]);
                    }
                }
            }
        }
        v.insert(p, x);
        let ghost r = v@;
        assert(r == t.insert(p as int, x));
        assert forall|i: int, j: int| 0 <= i < j < r.len() implies r[i] < r[j] by {
            if j < p {
                assert(r[i] == t[i] && r[j] == t[j]);
            } else if j == p {
                assert(r[i] == t[i]);
            } else if i < p {
                assert(r[i] == t[i] && r[j] == t[j - 1]);
            } else if i == p {
                assert(r[j] == t[j - 1]);
            } else {
                assert(r[i] == t[i - 1] && r[j] == t[j - 1]);
            }
        }
        assert forall|y: i32| r.contains(y) <==> (t.contains(y) || y == x) by {
            if r.contains(y) {
                let i = choose|i: int| 0 <= i < r.len() && r[i] == y;
                if i < p {
                    assert(t[i] == y);
                } else if i > p {
                    assert(t[i - 1] == y);
                }
            }
            if t.contains(y) {
                let i = choose|i: int| 0 <= i < t.len() && t[i] == y;
                if i < p {
                    assert(r[i] == y);
                } else {
                    assert(r[i + 1] == y);
                }
            }
            if y == x {
                assert(r[p as int] == x);
            }
        }
    }
}

fn seasons_of_missing(w: &Vec<EpisodeResource>) -> (r: Vec<i32>)
    ensures
        r@ == missing_seasons(w@),
{
    let mut r: Vec<i32> = Vec::new();
    let mut i: usize = 0;
    while i < w.len()
        invariant
            i <= w@.len(),
            lists_missing_seasons(r@, w@.take(i as int)),
        decreases w@.len() - i,
    {
        let ghost before = r@;
        let ghost done = w@.take(i as int);
        let ghost next = w@.take(i as int + 1);
        if !w[i].has_file {
            add_season_to(&mut r, w[i].season_number);
        }
        assert forall|n: i32| r@.contains(n) <==> has_missing(next, n) by {
            if has_missing(next, n) {
                let k = choose|k: int|
                    0 <= k < next.len() && !next[k].has_file && #[trigger] next[k].season_number == n;
                if k < i {
                    assert(done[k] == next[k]);
                    assert(has_missing(done, n));
                }
            }
            if has_missing(done, n) {
                let k = choose|k: int|
                    0 <= k < done.len() && !done[k].has_file && #[trigger] done[k].season_number == n;
                assert(next[k] == done[k]);
            }
            if !w@[i as int].has_file && n == w@[i as int].season_number {
                assert(next[i as int] == w@[i as int]);
            }
        }
        i = i + 1;
    }
    assert(w@.take(w@.len() as int) =~= w@);
    proof {
        let v = missing_seasons(w@);
        assert(lists_missing_seasons(v, w@));
        lemma_ascending_unique(r@, v);
    }
    r
}

fn push_season_steps(steps: &mut Vec<Step>, series: &SeriesResource, num: i32)
    ensures
        steps_view(final(steps)@) == steps_view(old(steps)@) + season_steps(series@, num),
{
    let ghost before = steps_view(steps@);
    proof {
        lemma_first_index(season_numbers(series@.seasons), num);
    }
    match search_season(series, num) {
        None => {
            assert(steps_view(steps@) =~= before + season_steps(series@, num));
        },
        Some(plan) => {
            match plan.put {
                Some(put) => {
                    steps.push(Step { request: Request::PutSeries { series: put }, on_failure: Recovery::SkipNext });
                },
                None => {},
            }
            steps.push(
                Step {
                    request: Request::SearchSeason {
                        series_id: plan.series_id,
                        season_number: plan.season_number,
                    },
                    on_failure: Recovery::Continue,
                },
            );
            assert(steps_view(steps@) =~= before + season_steps(series@, num));
        },
    }
}

/// Builds the script for `series` once the episode window `w` is known,
/// `wanted` episodes having been asked for: see [`script`].
pub fn plan(series: SeriesResource, w: &Vec<EpisodeResource>, wanted: usize, request_seasons: bool) -> (r: Vec<Step>)
    ensures
        steps_view(r@) == script(series@, w@, wanted as nat, request_seasons),
{
    let ghost given = series@;
    let mut series = series;
    let mut changed = false;
    if !series.monitored {
        changed = true;
    }
    series.monitored = true;
    if w.len() < wanted {
        let n = series.seasons.len();
        if n > 0 {
            if !series.seasons[n - 1].monitored {
                changed = true;
            }
            series.seasons[n - 1].monitored = true;
        }
        match series.monitor_new_items {
            Some(NewItemMonitorTypes::All) => {},
            _ => {
                changed = true;
            },
        }
        series.monitor_new_items = Some(NewItemMonitorTypes::All);
    }
    assert(series@ =~= baseline(given, w@.len(), wanted as nat));
    proof {
        lemma_baseline_changes(given, w@.len(), wanted as nat);
    }
    assert(changed == (series@ != given));
    let mut steps: Vec<Step> = Vec::new();
    if request_seasons {
        let nums = seasons_of_missing(w);
        let ghost b = series@;
        if series.monitor_seasons(&nums) {
            changed = true;
        }
        proof {
            lemma_season_write_needed(given, w@.len(), wanted as nat, nums@);
        }
        assert(changed == (series@ != given));
        if changed {
            steps.push(Step { request: Request::PutSeries { series: series.clone() }, on_failure: Recovery::Abort });
        }
        assert(steps_view(steps@) =~= put_step(series@, changed));
        let mut k: usize = 0;
        while k < nums.len()
            invariant
                k <= nums@.len(),
                steps_view(steps@) == put_step(series@, changed) + seasons_steps(series@, nums@.take(k as int)),
            decreases nums@.len() - k,
        {
            assert(nums@.take(k as int + 1).drop_last() =~= nums@.take(k as int));
            assert(nums@.take(k as int + 1).last() == nums@[k as int]);
            push_season_steps(&mut steps, &series, nums[k]);
            assert(put_step(series@, changed) + seasons_steps(series@, nums@.take(k as int)) + season_steps(series@, nums@[k as int])
                =~= put_step(series@, changed) + seasons_steps(series@, nums@.take(k as int + 1)));
            k = k + 1;
        }
        assert(nums@.take(nums@.len() as int) =~= nums@);
    } else {
        let missing = missing_episodes(w);
        if changed {
            steps.push(Step { request: Request::PutSeries { series }, on_failure: Recovery::Abort });
        }
        steps.push(Step { request: Request::MonitorEpisodes { body: monitor_episodes(&missing) }, on_failure: Recovery::Abort });
        steps.push(Step { request: Request::SearchEpisodes { episode_ids: search_episodes(&missing) }, on_failure: Recovery::Abort });
        assert(steps_view(steps@) =~= script(given, w@, wanted as nat, request_seasons));
    }
    steps
}

/// The exclusion tag as mathematical values.
pub enum TagView {
    Label(Seq<char>),
    Id(i32),
}

pub open spec fn tag_view(t: Option<Tag>) -> Option<TagView> {
    match t {
        Some(Tag::Label(l)) => Some(TagView::Label(l@)),
        Some(Tag::Id(id)) => Some(TagView::Id(id)),
        None => None,
    }
}

/// Where the engine stands with the current event.
pub enum Job {
    /// No event in hand.
    Idle,
    /// Waiting for the series listing.
    Lookup { event: NowPlaying },
    /// Waiting for the tag listing, to resolve the exclusion tag.
    Tags { event: NowPlaying, series: SeriesResource },
    /// Waiting for the episode listing.
    Episodes { event: NowPlaying, series: SeriesResource },
    /// Running a script; `at` is the step whose outcome is awaited.
    Running { steps: Vec<Step>, at: usize },
}

pub enum JobView {
    Idle,
    Lookup(NowPlayingView),
    Tags(NowPlayingView, SeriesView),
    Episodes(NowPlayingView, SeriesView),
    Running(Script, int),
}

impl View for Job {
    type V = JobView;

    open spec fn view(&self) -> JobView {
        match self {
            Job::Idle => JobView::Idle,
            Job::Lookup { event } => JobView::Lookup(event@),
            Job::Tags { event, series } => JobView::Tags(event@, series@),
            Job::Episodes { event, series } => JobView::Episodes(event@, series@),
            Job::Running { steps, at } => JobView::Running(steps_view(steps@), *at as int),
        }
    }
}

/// The engine's settings and state as mathematical values.
pub struct ActorView {
    pub seen: Seq<(NowPlayingView, u64)>,
    pub prefetch_num: nat,
    pub request_seasons: bool,
    pub exclude: Option<TagView>,
    pub job: JobView,
}

/// After the series is found: where the exclusion tag is still a label,
/// fetch the tags; where the series carries the resolved tag, drop the
/// event; otherwise fetch the episodes.
pub open spec fn gate(exclude: Option<TagView>, event: NowPlayingView, series: SeriesView) -> (
    JobView,
    RequestView,
) {
    match exclude {
        Some(TagView::Label(_)) => (JobView::Tags(event, series), RequestView::ListTags),
        Some(TagView::Id(t)) => if carries_tag(series, t) {
            (JobView::Idle, RequestView::Idle)
        } else {
            (JobView::Episodes(event, series), RequestView::ListEpisodes(series.id))
        },
        None => (JobView::Episodes(event, series), RequestView::ListEpisodes(series.id)),
    }
}

/// Runs `steps` from step `at`, or ends the event where none is left.
pub open spec fn run_from(steps: Script, at: int) -> (JobView, RequestView) {
    if 0 <= at < steps.len() {
        (JobView::Running(steps, at), steps[at].0)
    } else {
        (JobView::Idle, RequestView::Idle)
    }
}

/// The step that follows step `at` of `steps` after its outcome.
pub open spec fn next_step(steps: Script, at: int, ok: bool) -> int {
    if ok {
        at + 1
    } else {
        match steps[at].1 {
            Recovery::Abort => steps.len() as int,
            Recovery::Continue => at + 1,
            Recovery::SkipNext => at + 2,
        }
    }
}

/// One step of the engine: the state after `reply` to the request that
/// `a.job` awaits, and the next request. A reply of the wrong kind counts as
/// a failure.
pub open spec fn model(a: ActorView, reply: ReplyView) -> (ActorView, RequestView) {
    match a.job {
        JobView::Idle => (a, RequestView::Idle),
        JobView::Lookup(event) => match reply {
            ReplyView::Series(list) => match first_index(identified(list, event.series), true) {
                Some(i) => {
                    let (job, req) = gate(a.exclude, event, list[i]@);
                    (ActorView { job, ..a }, req)
                },
                None => (ActorView { job: JobView::Idle, ..a }, RequestView::Idle),
            },
            _ => (ActorView { job: JobView::Idle, ..a }, RequestView::Idle),
        },
        JobView::Tags(event, series) => {
            let exclude = match reply {
                ReplyView::Tags(tags) => match a.exclude {
                    Some(TagView::Label(l)) => match first_index(tag_labels(tags), l) {
                        Some(i) => Some(TagView::Id(tags[i].id)),
                        None => a.exclude,
                    },
                    _ => a.exclude,
                },
                _ => a.exclude,
            };
            let excluded = match exclude {
                Some(TagView::Id(t)) => carries_tag(series, t),
                _ => false,
            };
            if excluded {
                (ActorView { exclude, job: JobView::Idle, ..a }, RequestView::Idle)
            } else {
                (
                    ActorView { exclude, job: JobView::Episodes(event, series), ..a },
                    RequestView::ListEpisodes(series.id),
                )
            }
        },
        JobView::Episodes(event, series) => match reply {
            ReplyView::Episodes(list) => {
                let w = window(event.season, event.episode, a.prefetch_num, list);
                let (job, req) = run_from(script(series, w, a.prefetch_num, a.request_seasons), 0);
                (ActorView { job, ..a }, req)
            },
            _ => (ActorView { job: JobView::Idle, ..a }, RequestView::Idle),
        },
        JobView::Running(steps, at) => {
            let (job, req) = run_from(steps, next_step(steps, at, reply is Done));
            (ActorView { job, ..a }, req)
        },
    }
}

/// The event that `msg` carries.
pub open spec fn event_of(msg: Message) -> NowPlayingView {
    match msg {
        Message::NowPlaying(np) => np@,
    }
}

/// Taking `event` at time `now`: a repeat within the retention window is
/// dropped (`Idle`); otherwise it is recorded and the series listing is
/// requested.
pub open spec fn handle_model(a: ActorView, event: NowPlayingView, now: u64) -> (ActorView, RequestView) {
    let first = !seen_at(a.seen, event, now);
    (
        ActorView {
            seen: after_once(a.seen, event, now),
            job: if first {
                JobView::Lookup(event)
            } else {
                JobView::Idle
            },
            ..a
        },
        if first {
            RequestView::ListSeries
        } else {
            RequestView::Idle
        },
    )
}

/// The engine's state after it took `replies`, one after another.
pub open spec fn after_replies(a: ActorView, replies: Seq<ReplyView>) -> ActorView
    decreases replies.len(),
{
    if replies.len() == 0 {
        a
    } else {
        model(after_replies(a, replies.drop_last()), replies.last()).0
    }
}

/// Only taking an event changes what the engine has seen.
pub proof fn lemma_replies_keep_seen(a: ActorView, replies: Seq<ReplyView>)
    ensures
        after_replies(a, replies).seen == a.seen,
    decreases replies.len(),
{
    if replies.len() > 0 {
        lemma_replies_keep_seen(a, replies.drop_last());
    }
}

/// An event handed over twice at the same time is processed once: whatever
/// the replies to the first, the second asks for nothing.
pub proof fn lemma_repeat_not_reprocessed(
    a: ActorView,
    event: NowPlayingView,
    now: u64,
    replies: Seq<ReplyView>,
)
    ensures
        handle_model(after_replies(handle_model(a, event, now).0, replies), event, now).1
            == RequestView::Idle,
{
    let a1 = handle_model(a, event, now).0;
    lemma_replies_keep_seen(a1, replies);
    crate::util::once::lemma_repeat_suppressed(a.seen, event, now);
}

/// An event is processed at most once within the retention window: when it
/// is taken as new at `first`, the same event handed over again at `second`,
/// no later than seven days after, asks for nothing, whatever the replies in
/// between.
pub proof fn lemma_repeat_within_window(
    a: ActorView,
    event: NowPlayingView,
    first: u64,
    second: u64,
    replies: Seq<ReplyView>,
)
    requires
        first <= second <= first + RETAIN_MILLIS,
    ensures
        handle_model(a, event, first).1 == RequestView::ListSeries ==> handle_model(
            after_replies(handle_model(a, event, first).0, replies),
            event,
            second,
        ).1 == RequestView::Idle,
{
    let a1 = handle_model(a, event, first).0;
    lemma_replies_keep_seen(a1, replies);
    if !seen_at(a.seen, event, first) {
        let t = after_once(a.seen, event, first);
        let last = t.len() - 1;
        assert(t[last] == (event, first));
        assert(t[last].0 == event && fresh(t[last].1, second));
    }
}

/// No step of a season search aborts the event.
proof fn lemma_seasons_steps_continue(series: SeriesView, nums: Seq<i32>)
    ensures
        forall|k: int|
            0 <= k < seasons_steps(series, nums).len() ==> #[trigger] seasons_steps(series, nums)[k].1
                != Recovery::Abort,
        forall|n: i32|
            seasons_steps(series, nums).contains((RequestView::SearchSeason(series.id, n), Recovery::Continue))
                <==> (nums.contains(n) && first_index(season_numbers(series.seasons), n).is_some()),
    decreases nums.len(),
{
    let sc = seasons_steps(series, nums);
    if nums.len() == 0 {
        assert forall|n: i32| !sc.contains((RequestView::SearchSeason(series.id, n), Recovery::Continue)) by {}
    } else {
        let init = nums.drop_last();
        let x = nums.last();
        lemma_seasons_steps_continue(series, init);
        let a = seasons_steps(series, init);
        let g = season_steps(series, x);
        assert(sc == a + g);
        assert forall|k: int| 0 <= k < sc.len() implies #[trigger] sc[k].1 != Recovery::Abort by {
            if k < a.len() {
                assert(sc[k] == a[k]);
            } else {
                assert(sc[k] == g[k - a.len()]);
            }
        }
        assert forall|n: i32|
            sc.contains((RequestView::SearchSeason(series.id, n), Recovery::Continue)) <==> (
            nums.contains(n) && first_index(season_numbers(series.seasons), n).is_some()) by {
            let step = (RequestView::SearchSeason(series.id, n), Recovery::Continue);
            if sc.contains(step) {
                let k = choose|k: int| 0 <= k < sc.len() && sc[k] == step;
                if k < a.len() {
                    assert(a[k] == step);
                    assert(seasons_steps(series, init).contains(step));
                    assert(init.contains(n));
                    let j = choose|j: int| 0 <= j < init.len() && init[j] == n;
                    assert(nums[j] == n);
                } else {
                    let gi = k - a.len();
                    assert(g[gi] == step);
                    match first_index(season_numbers(series.seasons), x) {
                        None => {
                            assert(g.len() == 0);
                        },
                        Some(i) => {
                            assert(g[gi].0 == RequestView::SearchSeason(series.id, n));
                            assert(n == x);
                        },
                    }
                    assert(nums[nums.len() - 1] == n);
                }
            }
            if nums.contains(n) && first_index(season_numbers(series.seasons), n).is_some() {
                let j = choose|j: int| 0 <= j < nums.len() && nums[j] == n;
                if j < init.len() {
                    assert(init[j] == n);
                    assert(init.contains(n));
                    assert(seasons_steps(series, init).contains(step));
                    let k = choose|k: int| 0 <= k < a.len() && a[k] == step;
                    assert(sc[k] == step);
                } else {
                    assert(n == x);
                    let gi = g.len() - 1;
                    assert(g[gi] == step);
                    assert(sc[a.len() + gi] == step);
                }
            }
        }
    }
}

/// Where fewer episodes come back than were asked for, the record the
/// engine keeps has the series, its last season and new items monitored.
/// It is written first, giving up the event if the write fails, exactly when
/// it differs from the series as fetched; otherwise no write of that kind is
/// made.
pub proof fn lemma_short_window(
    series: SeriesView,
    w: Seq<EpisodeResource>,
    wanted: nat,
    request_seasons: bool,
)
    requires
        w.len() < wanted,
    ensures
        ({
            let kept = kept_record(series, w, wanted, request_seasons);
            let sc = script(series, w, wanted, request_seasons);
            &&& kept.monitored
            &&& kept.monitor_new_items == Some(NewItemMonitorTypes::All)
            &&& kept.seasons.len() > 0 ==> kept.seasons.last().monitored
            &&& kept != series ==> sc[0] == (RequestView::PutSeries(kept), Recovery::Abort)
            &&& kept == series ==> forall|k: int|
                0 <= k < sc.len() ==> !(#[trigger] sc[k].0 is PutSeries && sc[k].1 == Recovery::Abort)
        }),
{
    let kept = kept_record(series, w, wanted, request_seasons);
    let sc = script(series, w, wanted, request_seasons);
    let b = baseline(series, w.len(), wanted);
    let nums = missing_seasons(w);
    if request_seasons && kept.seasons.len() > 0 {
        let n = kept.seasons.len() - 1;
        assert(b.seasons[n].monitored);
        assert(kept.seasons[n].monitored);
    }
    if kept == series {
        if request_seasons {
            lemma_seasons_steps_continue(kept, nums);
            assert(sc =~= seasons_steps(kept, nums));
        }
    }
}

/// In season mode the engine searches exactly the seasons of the series that
/// have an episode without a file in the window, each once with its failure
/// not stopping the others.
pub proof fn lemma_season_searches(series: SeriesView, w: Seq<EpisodeResource>, wanted: nat)
    ensures
        forall|n: i32|
            script(series, w, wanted, true).contains(
                (RequestView::SearchSeason(series.id, n), Recovery::Continue),
            ) <==> (has_missing(w, n) && first_index(season_numbers(series.seasons), n).is_some()),
{
    let kept = kept_record(series, w, wanted, true);
    let nums = missing_seasons(w);
    let sc = script(series, w, wanted, true);
    let a = put_step(kept, kept != series);
    let rest = seasons_steps(kept, nums);
    lemma_missing_seasons(w);
    lemma_seasons_steps_continue(kept, nums);
    assert(season_numbers(kept.seasons) =~= season_numbers(series.seasons));
    assert(sc == a + rest);
    assert forall|n: i32|
        sc.contains((RequestView::SearchSeason(series.id, n), Recovery::Continue)) <==> (has_missing(
            w,
            n,
        ) && first_index(season_numbers(series.seasons), n).is_some()) by {
        let step = (RequestView::SearchSeason(series.id, n), Recovery::Continue);
        if sc.contains(step) {
            let k = choose|k: int| 0 <= k < sc.len() && sc[k] == step;
            if k >= a.len() {
                assert(rest[k - a.len()] == step);
                assert(rest.contains(step));
            } else {
                assert(a[k] == step);
            }
        }
        if rest.contains(step) {
            let k = choose|k: int| 0 <= k < rest.len() && rest[k] == step;
            assert(sc[a.len() + k] == step);
        }
    }
}

/// The decision engine.
pub struct Actor {
    seen: Seen,
    prefetch_num: usize,
    request_seasons: bool,
    exclude: Option<Tag>,
    job: Job,
}

impl View for Actor {
    type V = ActorView;

    closed spec fn view(&self) -> ActorView {
        ActorView {
            seen: self.seen@,
            prefetch_num: self.prefetch_num as nat,
            request_seasons: self.request_seasons,
            exclude: tag_view(self.exclude),
            job: self.job@,
        }
    }
}

impl Actor {
    pub closed spec fn wf(&self) -> bool {
        &&& self.seen.wf()
        &&& match self.job {
            Job::Running { steps, at } => at < steps@.len(),
            _ => true,
        }
    }

    /// An engine that prefetches `prefetch_num` episodes, by whole seasons
    /// where `request_seasons` holds, and leaves alone the series that carry
    /// the tag labelled `exclude_tag`.
    pub fn new(seen: Seen, prefetch_num: usize, request_seasons: bool, exclude_tag: Option<String>) -> (r: Actor)
        requires
            seen.wf(),
        ensures
            r.wf(),
            r@ == (ActorView {
                seen: seen@,
                prefetch_num: prefetch_num as nat,
                request_seasons,
                exclude: match exclude_tag {
                    Some(l) => Some(TagView::Label(l@)),
                    None => None,
                },
                job: JobView::Idle,
            }),
    {
        let exclude = match exclude_tag {
            Some(l) => Some(Tag::Label(l)),
            None => None,
        };
        Actor { seen, prefetch_num, request_seasons, exclude, job: Job::Idle }
    }

    /// No event is in hand: the next one may be handed over.
    pub fn is_idle(&self) -> (r: bool)
        ensures
            r == (self@.job is Idle),
    {
        match self.job {
            Job::Idle => true,
            _ => false,
        }
    }

    /// Takes the next event: see [`handle_model`]; `now` is the reading of
    /// the engine's clock.
    pub fn handle(&mut self, msg: Message) -> (r: Request)
        requires
            old(self).wf(),
            old(self)@.job is Idle,
        ensures
            final(self).wf(),
            exists|now: u64| #[trigger] handle_model(old(self)@, event_of(msg), now) == (final(self)@, r@),
    {
        let ghost a = self@;
        let Message::NowPlaying(np) = msg;
        let ghost v = np@;
        let key = np.clone();
        let first = self.seen.once(key);
        let r = if first {
            self.job = Job::Lookup { event: np };
            Request::ListSeries
        } else {
            Request::Idle
        };
        proof {
            let t = choose|t: u64| #[trigger] after_once(a.seen, v, t) == self.seen@ && first == !seen_at(a.seen, v, t);
            assert(handle_model(a, v, t) == (self@, r@));
        }
        r
    }

    /// Takes the outcome of the request last returned and returns the next
    /// request: see [`model`].
    pub fn advance(&mut self, reply: Reply) -> (r: Request)
        requires
            old(self).wf(),
        ensures
            final(self).wf(),
            (final(self)@, r@) == model(old(self)@, reply@),
    {
        let ghost a = self@;
        let mut job = Job::Idle;
        core::mem::swap(&mut self.job, &mut job);
        assert(job@ == a.job);
        assert(match job {
            Job::Running { steps, at } => at < steps@.len(),
            _ => true,
        });
        match job {
            Job::Idle => Request::Idle,
            Job::Lookup { event } => match reply {
                Reply::Series(list) => {
                    proof {
                        lemma_first_index(identified(list@, event@.series), true);
                    }
                    match find_series(list, &event.series) {
                        Some(series) => self.gate(event, series),
                        None => Request::Idle,
                    }
                },
                _ => Request::Idle,
            },
            Job::Tags { event, series } => {
                match reply {
                    Reply::Tags(tags) => {
                        let resolved = match &self.exclude {
                            Some(Tag::Label(l)) => resolve_tag(&tags, l),
                            _ => None,
                        };
                        match resolved {
                            Some(id) => {
                                self.exclude = Some(Tag::Id(id));
                            },
                            None => {},
                        }
                    },
                    _ => {},
                }
                let excluded = match &self.exclude {
                    Some(Tag::Id(t)) => series.has_tag(*t),
                    _ => false,
                };
                if excluded {
                    Request::Idle
                } else {
                    let series_id = series.id;
                    self.job = Job::Episodes { event, series };
                    Request::ListEpisodes { series_id }
                }
            },
            Job::Episodes { event, series } => match reply {
                Reply::Episodes(list) => {
                    let w = episode_window(event.season, event.episode, self.prefetch_num, list);
                    let steps = plan(series, &w, self.prefetch_num, self.request_seasons);
                    self.run_from(steps, 0)
                },
                _ => Request::Idle,
            },
            Job::Running { steps, at } => {
                let n = steps.len();
                let ok = match reply {
                    Reply::Done => true,
                    _ => false,
                };
                let next = if ok {
                    at + 1
                } else {
                    match steps[at].on_failure {
                        Recovery::Abort => n,
                        Recovery::Continue => at + 1,
                        Recovery::SkipNext => if at + 1 < n {
                            at + 2
                        } else {
                            n
                        },
                    }
                };
                proof {
                    let sv = steps_view(steps@);
                    assert(sv[at as int] == (steps@[at as int].request@, steps@[at as int].on_failure));
                }
                self.run_from(steps, next)
            },
        }
    }

    fn gate(&mut self, event: NowPlaying, series: SeriesResource) -> (r: Request)
        requires
            old(self).wf(),
            old(self).job is Idle,
        ensures
            final(self).wf(),
            ({
                let (job, req) = gate(old(self)@.exclude, event@, series@);
                final(self)@ == (ActorView { job, ..old(self)@ }) && r@ == req
            }),
    {
        match &self.exclude {
            Some(Tag::Label(_)) => {
                self.job = Job::Tags { event, series };
                Request::ListTags
            },
            Some(Tag::Id(t)) => {
                if series.has_tag(*t) {
                    Request::Idle
                } else {
                    let series_id = series.id;
                    self.job = Job::Episodes { event, series };
                    Request::ListEpisodes { series_id }
                }
            },
            None => {
                let series_id = series.id;
                self.job = Job::Episodes { event, series };
                Request::ListEpisodes { series_id }
            },
        }
    }

    fn run_from(&mut self, steps: Vec<Step>, at: usize) -> (r: Request)
        requires
            old(self).wf(),
            old(self).job is Idle,
        ensures
            final(self).wf(),
            ({
                let (job, req) = run_from(steps_view(steps@), at as int);
                final(self)@ == (ActorView { job, ..old(self)@ }) && r@ == req
            }),
    {
        if at < steps.len() {
            let request = steps[at].request.clone();
            self.job = Job::Running { steps, at };
            request
        } else {
            Request::Idle
        }
    }
}

} // verus!
