//! The PVR's resources as this library reads and writes them, and the
//! episode window: the run of episodes that follows the one being watched.
use crate::media_server::{Series, SeriesView as SeriesIdView};
use vstd::prelude::*;

verus! {

/// Relies on `serde_json::Value`: the fields of a resource that this library
/// does not read, carried along so that a write sends them back unchanged.
#[verifier::external_type_specification]
#[verifier::external_body]
pub struct ExValue(serde_json::Value);

/// Relies on `serde_json::Value`'s derived `Clone`: the copy is the same
/// JSON value.
pub assume_specification[ <serde_json::Value as Clone>::clone ](v: &serde_json::Value) -> (r:
    serde_json::Value)
    ensures
        r == *v,
;

/// One episode of a series.
#[derive(Clone, Copy, Debug, PartialEq, Eq, Structural)]
pub struct EpisodeResource {
    pub id: i32,
    pub season_number: i32,
    pub episode_number: i32,
    pub has_file: bool,
    pub monitored: bool,
}

/// Download statistics of a season.
#[derive(Debug)]
pub struct SeasonStatisticsResource {
    pub size_on_disk: i64,
    pub episode_count: i32,
    pub episode_file_count: i32,
    pub total_episode_count: i32,
    pub other: serde_json::Value,
}

impl Clone for SeasonStatisticsResource {
    fn clone(&self) -> (r: SeasonStatisticsResource)
        ensures
            r == *self,
    {
        SeasonStatisticsResource {
            size_on_disk: self.size_on_disk,
            episode_count: self.episode_count,
            episode_file_count: self.episode_file_count,
            total_episode_count: self.total_episode_count,
            other: self.other.clone(),
        }
    }
}

/// One season of a series, with its monitoring flag.
#[derive(Debug)]
pub struct SeasonResource {
    pub season_number: i32,
    pub monitored: bool,
    pub statistics: Option<SeasonStatisticsResource>,
    pub other: serde_json::Value,
}

impl Clone for SeasonResource {
    fn clone(&self) -> (r: SeasonResource)
        ensures
            r == *self,
    {
        let statistics = match &self.statistics {
            Some(s) => Some(s.clone()),
            None => None,
        };
        SeasonResource {
            season_number: self.season_number,
            monitored: self.monitored,
            statistics,
            other: self.other.clone(),
        }
    }
}

/// Which items the PVR starts to monitor when they are announced.
#[derive(Clone, Copy, Debug, PartialEq, Eq, Structural)]
pub enum NewItemMonitorTypes {
    All,
    /// Monitor nothing new (`none` on the wire).
    NoItems,
}

/// A series as the PVR holds it.
#[derive(Debug)]
pub struct SeriesResource {
    pub id: i32,
    pub title: Option<String>,
    pub tvdb_id: i32,
    pub monitored: bool,
    pub monitor_new_items: Option<NewItemMonitorTypes>,
    pub seasons: Vec<SeasonResource>,
    pub tags: Option<Vec<i32>>,
    pub other: serde_json::Value,
}

/// A series as mathematical values.
pub struct SeriesView {
    pub id: i32,
    pub title: Option<Seq<char>>,
    pub tvdb_id: i32,
    pub monitored: bool,
    pub monitor_new_items: Option<NewItemMonitorTypes>,
    pub seasons: Seq<SeasonResource>,
    pub tags: Option<Seq<i32>>,
    pub other: serde_json::Value,
}

impl View for SeriesResource {
    type V = SeriesView;

    open spec fn view(&self) -> SeriesView {
        SeriesView {
            id: self.id,
            title: match self.title {
                Some(t) => Some(t@),
                None => None,
            },
            tvdb_id: self.tvdb_id,
            monitored: self.monitored,
            monitor_new_items: self.monitor_new_items,
            seasons: self.seasons@,
            tags: match self.tags {
                Some(t) => Some(t@),
                None => None,
            },
            other: self.other,
        }
    }
}

fn clone_seasons(seasons: &Vec<SeasonResource>) -> (r: Vec<SeasonResource>)
    ensures
        r@ == seasons@,
{
    let mut r: Vec<SeasonResource> = Vec::new();
    let mut i: usize = 0;
    while i < seasons.len()
        invariant
            i <= seasons@.len(),
            r@ == seasons@.take(i as int),
        decreases seasons@.len() - i,
    {
        r.push(seasons[i].clone());
        assert(seasons@.take(i as int + 1) =~= seasons@.take(i as int).push(seasons@[i as int]));
        i = i + 1;
    }
    assert(seasons@.take(seasons@.len() as int) =~= seasons@);
    r
}

pub(crate) fn clone_ids(ids: &Vec<i32>) -> (r: Vec<i32>)
    ensures
        r@ == ids@,
{
    let mut r: Vec<i32> = Vec::new();
    let mut i: usize = 0;
    while i < ids.len()
        invariant
            i <= ids@.len(),
            r@ == ids@.take(i as int),
        decreases ids@.len() - i,
    {
        r.push(ids[i]);
        assert(ids@.take(i as int + 1) =~= ids@.take(i as int).push(ids@[i as int]));
        i = i + 1;
    }
    assert(ids@.take(ids@.len() as int) =~= ids@);
    r
}

impl Clone for SeriesResource {
    fn clone(&self) -> (r: SeriesResource)
        ensures
            r@ == self@,
    {
        let title = match &self.title {
            Some(t) => Some(t.clone()),
            None => None,
        };
        let tags = match &self.tags {
            Some(t) => Some(clone_ids(t)),
            None => None,
        };
        SeriesResource {
            id: self.id,
            title,
            tvdb_id: self.tvdb_id,
            monitored: self.monitored,
            monitor_new_items: self.monitor_new_items,
            seasons: clone_seasons(&self.seasons),
            tags,
            other: self.other.clone(),
        }
    }
}

/// The body of a request that sets the monitoring flag of several episodes.
#[derive(Debug)]
pub struct EpisodeMonitoredResource {
    pub episode_ids: Vec<i32>,
    pub monitored: bool,
}

/// The season numbers of `seasons`, in order.
pub open spec fn season_numbers(seasons: Seq<SeasonResource>) -> Seq<i32> {
    Seq::new(seasons.len(), |i: int| seasons[i].season_number)
}

/// The first index at which `num` stands in `nums`, if any.
#[verifier::opaque]
pub open spec fn first_index<A>(nums: Seq<A>, num: A) -> Option<int> {
    if exists|i: int| 0 <= i < nums.len() && #[trigger] nums[i] == num {
        Some(
            choose|i: int|
                {
                    &&& 0 <= i < nums.len()
                    &&& #[trigger] nums[i] == num
                    &&& forall|j: int| 0 <= j < i ==> nums[j] != num
                },
        )
    } else {
        None
    }
}

proof fn lemma_earliest_exists<A>(nums: Seq<A>, num: A, k: int)
    requires
        0 <= k < nums.len(),
        nums[k] == num,
    ensures
        exists|i: int|
            {
                &&& 0 <= i < nums.len()
                &&& #[trigger] nums[i] == num
                &&& forall|j: int| 0 <= j < i ==> nums[j] != num
            },
    decreases k,
{
    if exists|j: int| 0 <= j < k && #[trigger] nums[j] == num {
        let j = choose|j: int| 0 <= j < k && #[trigger] nums[j] == num;
        lemma_earliest_exists(nums, num, j);
    } else {
        assert(forall|j: int| 0 <= j < k ==> nums[j] != num);
    }
}

/// `first_index` finds the earliest occurrence, and finds one whenever
/// there is one.
pub proof fn lemma_first_index<A>(nums: Seq<A>, num: A)
    ensures
        match first_index(nums, num) {
            Some(i) => {
                &&& 0 <= i < nums.len()
                &&& nums[i] == num
                &&& forall|j: int| 0 <= j < i ==> nums[j] != num
            },
            None => forall|j: int| 0 <= j < nums.len() ==> nums[j] != num,
        },
{
    reveal(first_index);
    if exists|i: int| 0 <= i < nums.len() && #[trigger] nums[i] == num {
        let k = choose|i: int| 0 <= i < nums.len() && #[trigger] nums[i] == num;
        lemma_earliest_exists(nums, num, k);
    }
}

/// Season `i` of `seasons` is the first one numbered like one of `nums`.
pub open spec fn selected(seasons: Seq<SeasonResource>, nums: Seq<i32>, i: int) -> bool {
    exists|j: int|
        0 <= j < nums.len() && first_index(season_numbers(seasons), #[trigger] nums[j]) == Some(i)
}

/// `seasons` with the first season of each number in `nums` marked monitored.
pub open spec fn seasons_monitored(seasons: Seq<SeasonResource>, nums: Seq<i32>) -> Seq<
    SeasonResource,
> {
    Seq::new(
        seasons.len(),
        |i: int|
            if selected(seasons, nums, i) {
                SeasonResource { monitored: true, ..seasons[i] }
            } else {
                seasons[i]
            },
    )
}

/// Marking the seasons `nums` monitored changes a flag: one of the selected
/// seasons is not monitored yet.
pub open spec fn any_unmonitored(seasons: Seq<SeasonResource>, nums: Seq<i32>) -> bool {
    exists|i: int| 0 <= i < seasons.len() && selected(seasons, nums, i) && !#[trigger] seasons[i].monitored
}

/// The first index at which a season numbered `num` stands, found by a scan.
pub fn season_index(seasons: &Vec<SeasonResource>, num: i32) -> (r: Option<usize>)
    ensures
        match r {
            Some(i) => first_index(season_numbers(seasons@), num) == Some(i as int),
            None => first_index(season_numbers(seasons@), num).is_none(),
        },
{
    let ghost nums = season_numbers(seasons@);
    proof {
        lemma_first_index(nums, num);
    }
    let mut i: usize = 0;
    while i < seasons.len()
        invariant
            i <= seasons@.len(),
            nums == season_numbers(seasons@),
            forall|j: int| 0 <= j < i ==> nums[j] != num,
            match first_index(nums, num) {
                Some(c) => 0 <= c < nums.len() && nums[c] == num && forall|j: int|
                    0 <= j < c ==> nums[j] != num,
                None => forall|j: int| 0 <= j < nums.len() ==> nums[j] != num,
            },
        decreases seasons@.len() - i,
    {
        if seasons[i].season_number == num {
            let ghost k = i as int;
            assert(nums[k] == num);
            let ghost ci = first_index(nums, num).unwrap();
            assert(ci == k) by {
                if ci < k {
                    assert(nums[ci] != num);
                }
                if ci > k {
                    assert(nums[k] != num);
                }
            }
            return Some(i);
        }
        i = i + 1;
    }
    proof {
        if first_index(nums, num).is_some() {
            let c = first_index(nums, num).unwrap();
            assert(nums[c] != num);
        }
    }
    None
}

/// Selecting by the first `k + 1` numbers adds the season of number `k` to
/// the selection by the first `k`.
proof fn lemma_selected_step(seasons: Seq<SeasonResource>, nums: Seq<i32>, k: int)
    requires
        0 <= k < nums.len(),
    ensures
        forall|i: int|
            #[trigger] selected(seasons, nums.take(k + 1), i) <==> (selected(
                seasons,
                nums.take(k),
                i,
            ) || first_index(season_numbers(seasons), nums[k]) == Some(i)),
{
    let done = nums.take(k);
    let next = nums.take(k + 1);
    let ns = season_numbers(seasons);
    assert forall|i: int| #[trigger] selected(seasons, next, i) <==> (selected(seasons, done, i)
        || first_index(ns, nums[k]) == Some(i)) by {
        if selected(seasons, next, i) {
            let j = choose|j: int| 0 <= j < next.len() && first_index(ns, #[trigger] next[j]) == Some(i);
            if j < k {
                assert(done[j] == next[j]);
            }
        }
        if selected(seasons, done, i) {
            let j = choose|j: int| 0 <= j < done.len() && first_index(ns, #[trigger] done[j]) == Some(i);
            assert(next[j] == done[j]);
        }
        if first_index(ns, nums[k]) == Some(i) {
            assert(next[k] == nums[k]);
        }
    }
}

impl SeriesResource {
    /// The first season numbered `num`, to change in place.
    pub fn season_mut(&mut self, num: i32) -> (r: Option<&mut SeasonResource>)
        ensures
            match first_index(season_numbers(old(self)@.seasons), num) {
                Some(i) => r.is_some() && *r.unwrap() == old(self)@.seasons[i] && final(self)@ == (
                SeriesView { seasons: old(self)@.seasons.update(i, *final(r.unwrap())), ..old(self)@ }),
                None => r.is_none() && final(self)@ == old(self)@,
            },
    {
        proof {
            lemma_first_index(season_numbers(self@.seasons), num);
        }
        match season_index(&self.seasons, num) {
            Some(i) => Some(&mut self.seasons[i]),
            None => None,
        }
    }

    /// Marks the first season of each number in `seasons` monitored; a number
    /// that names no season is skipped. Returns whether a flag changed.
    pub fn monitor_seasons(&mut self, seasons: &Vec<i32>) -> (changed: bool)
        ensures
            final(self)@ == (SeriesView {
                seasons: seasons_monitored(old(self)@.seasons, seasons@),
                ..old(self)@
            }),
            changed == any_unmonitored(old(self)@.seasons, seasons@),
    {
        let ghost start = self@;
        let ghost nums = season_numbers(start.seasons);
        let mut changed = false;
        let mut k: usize = 0;
        assert(seasons_monitored(start.seasons, seasons@.take(0)) =~= start.seasons);
        while k < seasons.len()
            invariant
                k <= seasons@.len(),
                self@ == (SeriesView {
                    seasons: seasons_monitored(start.seasons, seasons@.take(k as int)),
                    ..start
                }),
                changed == any_unmonitored(start.seasons, seasons@.take(k as int)),
                nums == season_numbers(start.seasons),
            decreases seasons@.len() - k,
        {
            let num = seasons[k];
            let ghost before = self.seasons@;
            let ghost done = seasons@.take(k as int);
            let ghost next = seasons@.take(k as int + 1);
            assert(season_numbers(before) =~= nums);
            proof {
                lemma_selected_step(start.seasons, seasons@, k as int);
            }
            proof {
                lemma_first_index(nums, num);
            }
            match season_index(&self.seasons, num) {
                Some(i) => {
                    if !self.seasons[i].monitored {
                        changed = true;
                    }
                    self.seasons[i].monitored = true;
                },
                None => {},
            }
            assert(self.seasons@ =~= seasons_monitored(start.seasons, next));
            assert(changed == any_unmonitored(start.seasons, next)) by {
                if changed && !any_unmonitored(start.seasons, done) {
                    let i = first_index(nums, num).unwrap();
                    assert(selected(start.seasons, next, i) && !start.seasons[i].monitored);
                }
                if any_unmonitored(start.seasons, next) && !any_unmonitored(start.seasons, done) {
                    let i = choose|i: int|
                        0 <= i < start.seasons.len() && selected(start.seasons, next, i)
                            && !#[trigger] start.seasons[i].monitored;
                    assert(first_index(nums, num) == Some(i));
                    assert(!before[i].monitored);
                }
            }
            k = k + 1;
        }
        assert(seasons@.take(seasons@.len() as int) =~= seasons@);
        changed
    }
}

/// `a` sorts no later than `b`: by season, then by episode.
pub open spec fn number_le(a: EpisodeResource, b: EpisodeResource) -> bool {
    a.season_number < b.season_number || (a.season_number == b.season_number
        && a.episode_number <= b.episode_number)
}

/// Where `e` goes into the sorted `s` so that the sort is stable: after every
/// episode that does not sort after it.
pub open spec fn insert_position(s: Seq<EpisodeResource>, e: EpisodeResource) -> int
    decreases s.len(),
{
    if s.len() == 0 {
        0
    } else if number_le(s.last(), e) {
        s.len() as int
    } else {
        insert_position(s.drop_last(), e)
    }
}

/// `s` sorted stably by (season, episode).
pub open spec fn sorted_by_number(s: Seq<EpisodeResource>) -> Seq<EpisodeResource>
    decreases s.len(),
{
    if s.len() == 0 {
        s
    } else {
        let t = sorted_by_number(s.drop_last());
        t.insert(insert_position(t, s.last()), s.last())
    }
}

/// The (season, episode) numbers of each episode of `s`.
pub open spec fn numbers(s: Seq<EpisodeResource>) -> Seq<(i32, i32)> {
    Seq::new(s.len(), |i: int| (s[i].season_number, s[i].episode_number))
}

/// `e` may follow the episode numbered (`season`, `episode`) in a window: it
/// is the next episode of the same season, the first of the next season, or
/// a duplicate listing of the same episode.
pub open spec fn follows(season: i32, episode: i32, e: EpisodeResource) -> bool {
    ||| (e.season_number - season == 1 && e.episode_number == 1)
    ||| (e.season_number == season && e.episode_number - episode == 1)
    ||| (e.season_number == season && e.episode_number == episode)
}

/// How many episodes after position `i` of `s` form an unbroken run.
pub open spec fn run_length(s: Seq<EpisodeResource>, i: int) -> nat
    decreases s.len() - i,
{
    if 0 <= i && i + 1 < s.len() && follows(s[i].season_number, s[i].episode_number, s[i + 1]) {
        1 + run_length(s, i + 1)
    } else {
        0
    }
}

/// The episode window: in `episodes` sorted by (season, episode), the first
/// entry numbered (`season_start`, `episode_start`) and then at most `num`
/// episodes of the unbroken run that follows it. Empty for season 0
/// (specials) and where the starting episode is not listed.
pub open spec fn window(
    season_start: i32,
    episode_start: i32,
    num: nat,
    episodes: Seq<EpisodeResource>,
) -> Seq<EpisodeResource> {
    let s = sorted_by_number(episodes);
    if season_start == 0 {
        Seq::empty()
    } else {
        match first_index(numbers(s), (season_start, episode_start)) {
            Some(i) => s.subrange(
                i + 1,
                i + 1 + if num < run_length(s, i) {
                    num as int
                } else {
                    run_length(s, i) as int
                },
            ),
            None => Seq::empty(),
        }
    }
}

proof fn lemma_insert_position(s: Seq<EpisodeResource>, e: EpisodeResource)
    ensures
        0 <= insert_position(s, e) <= s.len(),
    decreases s.len(),
{
    if s.len() > 0 {
        lemma_insert_position(s.drop_last(), e);
    }
}

proof fn lemma_sorted_len(s: Seq<EpisodeResource>)
    ensures
        sorted_by_number(s).len() == s.len(),
    decreases s.len(),
{
    if s.len() > 0 {
        lemma_sorted_len(s.drop_last());
        lemma_insert_position(sorted_by_number(s.drop_last()), s.last());
    }
}

proof fn lemma_run_length_bound(s: Seq<EpisodeResource>, i: int)
    requires
        0 <= i < s.len(),
    ensures
        i + 1 + run_length(s, i) <= s.len(),
    decreases s.len() - i,
{
    if i + 1 < s.len() && follows(s[i].season_number, s[i].episode_number, s[i + 1]) {
        lemma_run_length_bound(s, i + 1);
    }
}

/// Each of the first `k` steps of a run of length at least `k` follows its
/// predecessor.
proof fn lemma_run_follows(s: Seq<EpisodeResource>, i: int, k: int)
    requires
        0 <= i,
        0 <= k <= run_length(s, i),
    ensures
        forall|m: int|
            0 <= m < k ==> follows(
                s[i + m].season_number,
                s[i + m].episode_number,
                #[trigger] s[i + m + 1],
            ),
    decreases k,
{
    if k > 0 {
        lemma_run_follows(s, i + 1, k - 1);
        assert forall|m: int| 0 <= m < k implies follows(
            s[i + m].season_number,
            s[i + m].episode_number,
            #[trigger] s[i + m + 1],
        ) by {
            if m > 0 {
                assert(s[(i + 1) + (m - 1) + 1] == s[i + m + 1]);
            }
        }
    }
}

/// `s` is ascending by (season, episode).
pub open spec fn ascending(s: Seq<EpisodeResource>) -> bool {
    forall|i: int, j: int| 0 <= i < j < s.len() ==> number_le(#[trigger] s[i], #[trigger] s[j])
}

/// The stable insertion point splits `s` into episodes that sort no later
/// than `e` and episodes that sort after it.
proof fn lemma_insert_position_splits(s: Seq<EpisodeResource>, e: EpisodeResource)
    requires
        ascending(s),
    ensures
        forall|k: int| 0 <= k < insert_position(s, e) ==> number_le(#[trigger] s[k], e),
        forall|k: int| insert_position(s, e) <= k < s.len() ==> !number_le(#[trigger] s[k], e),
    decreases s.len(),
{
    lemma_insert_position(s, e);
    if s.len() > 0 {
        let init = s.drop_last();
        assert(ascending(init)) by {
            assert forall|i: int, j: int| 0 <= i < j < init.len() implies number_le(
                #[trigger] init[i],
                #[trigger] init[j],
            ) by {
                assert(init[i] == s[i] && init[j] == s[j]);
            }
        }
        if number_le(s.last(), e) {
            assert forall|k: int| 0 <= k < s.len() implies number_le(#[trigger] s[k], e) by {
                if k < s.len() - 1 {
                    assert(number_le(s[k], s[s.len() - 1]));
                }
            }
        } else {
            lemma_insert_position_splits(init, e);
            assert forall|k: int| 0 <= k < insert_position(s, e) implies number_le(
                #[trigger] s[k],
                e,
            ) by {
                assert(s[k] == init[k]);
            }
            assert forall|k: int| insert_position(s, e) <= k < s.len() implies !number_le(
                #[trigger] s[k],
                e,
            ) by {
                if k < s.len() - 1 {
                    assert(s[k] == init[k]);
                }
            }
        }
    }
}

/// Sorting yields an ascending rearrangement of the same episodes.
pub proof fn lemma_sorted_ascending(s: Seq<EpisodeResource>)
    ensures
        ascending(sorted_by_number(s)),
        sorted_by_number(s).to_multiset() == s.to_multiset(),
    decreases s.len(),
{
    lemma_sorted_len(s);
    if s.len() == 0 {
        assert(sorted_by_number(s) == s);
    } else {
        let t = sorted_by_number(s.drop_last());
        let e = s.last();
        lemma_sorted_ascending(s.drop_last());
        lemma_insert_position(t, e);
        vstd::seq_lib::to_multiset_insert(t, insert_position(t, e), e);
        vstd::seq_lib::to_multiset_build(s.drop_last(), e);
        assert(s.drop_last().push(e) =~= s);
        lemma_insert_position_splits(t, e);
        let p = insert_position(t, e);
        let r = t.insert(p, e);
        assert(r == sorted_by_number(s));
        assert forall|i: int, j: int| 0 <= i < j < r.len() implies number_le(
            #[trigger] r[i],
            #[trigger] r[j],
        ) by {
            if j < p {
                assert(r[i] == t[i] && r[j] == t[j]);
            } else if j == p {
                assert(r[i] == t[i]);
            } else if i < p {
                assert(r[i] == t[i] && r[j] == t[j - 1]);
                assert(number_le(t[i], e));
                assert(!number_le(t[j - 1], e));
            } else if i == p {
                assert(r[j] == t[j - 1]);
                assert(!number_le(t[j - 1], e));
            } else {
                assert(r[i] == t[i - 1] && r[j] == t[j - 1]);
            }
        }
    }
}

/// Sorts `episodes` stably by (season, episode).
fn sort_by_number(episodes: &Vec<EpisodeResource>) -> (r: Vec<EpisodeResource>)
    ensures
        r@ == sorted_by_number(episodes@),
{
    let mut sorted: Vec<EpisodeResource> = Vec::new();
    let mut i: usize = 0;
    while i < episodes.len()
        invariant
            i <= episodes@.len(),
            sorted@ == sorted_by_number(episodes@.take(i as int)),
            sorted@.len() == i,
        decreases episodes@.len() - i,
    {
        let e = episodes[i];
        let ghost t = sorted@;
        assert(episodes@.take(i as int + 1).drop_last() =~= episodes@.take(i as int));
        assert(episodes@.take(i as int + 1).last() == e);
        let mut p: usize = sorted.len();
        assert(t.take(p as int) =~= t);
        while p > 0 && !episode_le(&sorted[p - 1], &e)
            invariant
                p <= t.len(),
                sorted@ == t,
                insert_position(t, e) == insert_position(t.take(p as int), e),
            decreases p,
        {
            assert(t.take(p as int).drop_last() =~= t.take(p as int - 1));
            p = p - 1;
        }
        proof {
            if p > 0 {
                assert(t.take(p as int).last() == t[p as int - 1]);
            }
        }
        sorted.insert(p, e);
        i = i + 1;
    }
    assert(episodes@.take(episodes@.len() as int) =~= episodes@);
    sorted
}

fn episode_le(a: &EpisodeResource, b: &EpisodeResource) -> (r: bool)
    ensures
        r == number_le(*a, *b),
{
    a.season_number < b.season_number || (a.season_number == b.season_number && a.episode_number
        <= b.episode_number)
}

fn follows_exec(season: i32, episode: i32, e: &EpisodeResource) -> (r: bool)
    ensures
        r == follows(season, episode, *e),
{
    let season_delta = e.season_number as i64 - season as i64;
    let episode_delta = e.episode_number as i64 - episode as i64;
    (season_delta == 1 && e.episode_number == 1) || (season_delta == 0 && (episode_delta == 1
        || episode_delta == 0))
}

/// Selects the episodes to prefetch after (`season_start`, `episode_start`):
/// see [`window`]. Fewer than `num` episodes means that the listing does not
/// show more, not that there are no more.
pub fn episode_window(
    season_start: i32,
    episode_start: i32,
    num: usize,
    episodes: Vec<EpisodeResource>,
) -> (r: Vec<EpisodeResource>)
    ensures
        r@ == window(season_start, episode_start, num as nat, episodes@),
{
    if season_start == 0 {
        return Vec::new();
    }
    let sorted = sort_by_number(&episodes);
    let ghost s = sorted@;
    let ghost keys = numbers(s);
    proof {
        lemma_sorted_len(episodes@);
        lemma_first_index(keys, (season_start, episode_start));
    }
    let mut i: usize = 0;
    while i < sorted.len()
        invariant
            i <= s.len(),
            sorted@ == s,
            keys == numbers(s),
            forall|j: int| 0 <= j < i ==> keys[j] != (season_start, episode_start),
        ensures
            i <= s.len(),
            forall|j: int| 0 <= j < i ==> keys[j] != (season_start, episode_start),
            i < s.len() ==> keys[i as int] == (season_start, episode_start),
        decreases s.len() - i,
    {
        if sorted[i].season_number == season_start && sorted[i].episode_number == episode_start {
            break;
        }
        i = i + 1;
    }
    if i == sorted.len() {
        proof {
            if first_index(keys, (season_start, episode_start)).is_some() {
                let c = first_index(keys, (season_start, episode_start)).unwrap();
                assert(keys[c] != (season_start, episode_start));
            }
        }
        return Vec::new();
    }
    proof {
        assert(keys[i as int] == (season_start, episode_start));
        let c = first_index(keys, (season_start, episode_start)).unwrap();
        if c < i {
            assert(keys[c] != (season_start, episode_start));
        }
        if c > i {
            assert(keys[i as int] != (season_start, episode_start));
        }
        lemma_run_length_bound(s, i as int);
    }
    let mut out: Vec<EpisodeResource> = Vec::new();
    let mut season = sorted[i].season_number;
    let mut episode = sorted[i].episode_number;
    let mut j: usize = i + 1;
    while out.len() < num && j < sorted.len() && follows_exec(season, episode, &sorted[j])
        invariant
            i < j <= s.len(),
            sorted@ == s,
            out@ == s.subrange(i + 1, j as int),
            out@.len() <= num,
            season == s[j - 1].season_number,
            episode == s[j - 1].episode_number,
            run_length(s, i as int) == (j - i - 1) + run_length(s, j - 1),
        decreases s.len() - j,
    {
        let e = sorted[j];
        out.push(e);
        assert(out@ =~= s.subrange(i + 1, j + 1));
        season = e.season_number;
        episode = e.episode_number;
        j = j + 1;
    }
    out
}

/// A window holds at most `num` episodes, each following the one before it
/// (the first following the starting episode), and is empty for season 0.
pub proof fn lemma_window_bounded(
    season_start: i32,
    episode_start: i32,
    num: nat,
    episodes: Seq<EpisodeResource>,
)
    ensures
        window(season_start, episode_start, num, episodes).len() <= num,
        season_start == 0 ==> window(season_start, episode_start, num, episodes).len() == 0,
        ({
            let w = window(season_start, episode_start, num, episodes);
            &&& w.len() > 0 ==> follows(season_start, episode_start, w[0])
            &&& forall|m: int|
                0 < m < w.len() ==> follows(
                    w[m - 1].season_number,
                    w[m - 1].episode_number,
                    #[trigger] w[m],
                )
        }),
{
    let s = sorted_by_number(episodes);
    let keys = numbers(s);
    lemma_sorted_len(episodes);
    lemma_first_index(keys, (season_start, episode_start));
    if season_start != 0 {
        if let Some(i) = first_index(keys, (season_start, episode_start)) {
            lemma_run_length_bound(s, i);
            let k = if num < run_length(s, i) {
                num as int
            } else {
                run_length(s, i) as int
            };
            lemma_run_follows(s, i, k);
            let w = window(season_start, episode_start, num, episodes);
            assert(w == s.subrange(i + 1, i + 1 + k));
            assert(keys[i] == (season_start, episode_start));
            if k > 0 {
                assert(w[0] == s[i + 0 + 1]);
            }
            assert forall|m: int| 0 < m < w.len() implies follows(
                w[m - 1].season_number,
                w[m - 1].episode_number,
                #[trigger] w[m],
            ) by {
                assert(w[m] == s[i + m + 1]);
                assert(w[m - 1] == s[i + m]);
            }
        }
    }
}

/// A tag as the PVR lists it.
#[derive(Debug)]
pub struct TagResource {
    pub id: i32,
    pub label: String,
}

/// The tag that excludes a series, as configured (a label) or once resolved
/// against the PVR's tags (an id).
#[derive(Debug)]
pub enum Tag {
    Label(String),
    Id(i32),
}

/// The labels of `tags`, in order.
pub open spec fn tag_labels(tags: Seq<TagResource>) -> Seq<Seq<char>> {
    Seq::new(tags.len(), |i: int| tags[i].label@)
}

/// The id of the first tag labelled `label`, if any.
pub fn resolve_tag(tags: &Vec<TagResource>, label: &String) -> (r: Option<i32>)
    ensures
        match first_index(tag_labels(tags@), label@) {
            Some(i) => r == Some(tags@[i].id),
            None => r.is_none(),
        },
{
    let ghost labels = tag_labels(tags@);
    proof {
        lemma_first_index(labels, label@);
    }
    let mut i: usize = 0;
    while i < tags.len()
        invariant
            i <= tags@.len(),
            labels == tag_labels(tags@),
            forall|j: int| 0 <= j < i ==> labels[j] != label@,
        decreases tags@.len() - i,
    {
        assert(labels[i as int] == tags@[i as int].label@);
        if tags[i].label.eq(label) {
            proof {
                lemma_first_index(labels, label@);
                let c = first_index(labels, label@).unwrap();
                if c < i {
                    assert(labels[c] != label@);
                }
                if c > i {
                    assert(labels[i as int] == label@);
                }
            }
            return Some(tags[i].id);
        }
        i = i + 1;
    }
    proof {
        lemma_first_index(labels, label@);
        if first_index(labels, label@).is_some() {
            let c = first_index(labels, label@).unwrap();
            assert(labels[c] != label@);
        }
    }
    None
}

/// The series carries the tag `id`.
pub open spec fn carries_tag(series: SeriesView, id: i32) -> bool {
    match series.tags {
        Some(t) => t.contains(id),
        None => false,
    }
}

impl SeriesResource {
    /// Whether the series carries the tag `id`.
    pub fn has_tag(&self, id: i32) -> (r: bool)
        ensures
            r == carries_tag(self@, id),
    {
        match &self.tags {
            Some(tags) => {
                let mut i: usize = 0;
                while i < tags.len()
                    invariant
                        i <= tags@.len(),
                        self@.tags == Some(tags@),
                        forall|j: int| 0 <= j < i ==> tags@[j] != id,
                    decreases tags@.len() - i,
                {
                    if tags[i] == id {
                        assert(tags@[i as int] == id);
                        assert(tags@.contains(id));
                        return true;
                    }
                    i = i + 1;
                }
                assert(!tags@.contains(id));
                false
            },
            None => false,
        }
    }
}

/// The series is the show that `id` identifies: the same title, or the same
/// TVDB id.
pub open spec fn identifies(id: SeriesIdView, series: SeriesView) -> bool {
    match id {
        SeriesIdView::Title(t) => series.title == Some(t),
        SeriesIdView::Tvdb(i) => series.tvdb_id == i,
    }
}

/// For each series of `list`, whether `id` identifies it.
pub open spec fn identified(list: Seq<SeriesResource>, id: SeriesIdView) -> Seq<bool> {
    Seq::new(list.len(), |i: int| identifies(id, list[i]@))
}

fn identifies_exec(id: &Series, series: &SeriesResource) -> (r: bool)
    ensures
        r == identifies(id@, series@),
{
    match id {
        Series::Title(t) => match &series.title {
            Some(title) => title.eq(t),
            None => false,
        },
        Series::Tvdb(i) => series.tvdb_id == *i,
    }
}

/// The first series of `list` that `id` identifies, if any.
pub fn find_series(series: Vec<SeriesResource>, id: &Series) -> (r: Option<SeriesResource>)
    ensures
        match first_index(identified(series@, id@), true) {
            Some(i) => r.is_some() && r.unwrap()@ == series@[i]@,
            None => r.is_none(),
        },
{
    let mut list = series;
    let ghost all = list@;
    assert(all == series@);
    let ghost flags = identified(all, id@);
    proof {
        lemma_first_index(flags, true);
    }
    let mut i: usize = 0;
    while i < list.len()
        invariant
            i <= list@.len(),
            list@ == all,
            all == series@,
            flags == identified(all, id@),
            forall|j: int| 0 <= j < i ==> flags[j] != true,
        decreases list@.len() - i,
    {
        assert(flags[i as int] == identifies(id@, list@[i as int]@));
        if identifies_exec(id, &list[i]) {
            proof {
                lemma_first_index(flags, true);
                let c = first_index(flags, true).unwrap();
                if c < i {
                    assert(flags[c] != true);
                }
                if c > i {
                    assert(flags[i as int] == true);
                }
            }
            return Some(list.remove(i));
        }
        i = i + 1;
    }
    proof {
        lemma_first_index(flags, true);
        if first_index(flags, true).is_some() {
            let c = first_index(flags, true).unwrap();
            assert(flags[c] != true);
        }
    }
    None
}

/// The ids of `episodes`, in order.
pub open spec fn episode_ids(episodes: Seq<EpisodeResource>) -> Seq<i32> {
    Seq::new(episodes.len(), |i: int| episodes[i].id)
}

fn ids_of(episodes: &Vec<EpisodeResource>) -> (r: Vec<i32>)
    ensures
        r@ == episode_ids(episodes@),
{
    let mut r: Vec<i32> = Vec::new();
    let mut i: usize = 0;
    while i < episodes.len()
        invariant
            i <= episodes@.len(),
            r@ == episode_ids(episodes@.take(i as int)),
        decreases episodes@.len() - i,
    {
        r.push(episodes[i].id);
        assert(episode_ids(episodes@.take(i as int + 1)) =~= episode_ids(episodes@.take(i as int)).push(
            episodes@[i as int].id,
        ));
        i = i + 1;
    }
    assert(episodes@.take(episodes@.len() as int) =~= episodes@);
    r
}

/// The request that marks `episodes` monitored.
pub fn monitor_episodes(episodes: &Vec<EpisodeResource>) -> (r: EpisodeMonitoredResource)
    ensures
        r.episode_ids@ == episode_ids(episodes@),
        r.monitored,
{
    EpisodeMonitoredResource { episode_ids: ids_of(episodes), monitored: true }
}

/// The ids of the episodes to search for together.
pub fn search_episodes(episodes: &Vec<EpisodeResource>) -> (r: Vec<i32>)
    ensures
        r@ == episode_ids(episodes@),
{
    ids_of(episodes)
}

/// What searching one season of a series takes.
#[derive(Debug)]
pub struct SeasonSearch {
    /// The series to write first, with the season and the series monitored,
    /// where one of them was not: the search ignores what is not monitored.
    pub put: Option<SeriesResource>,
    pub series_id: i32,
    pub season_number: i32,
}

/// `series` with its season at index `i` and the series itself monitored.
pub open spec fn with_season_monitored(series: SeriesView, i: int) -> SeriesView {
    SeriesView {
        monitored: true,
        seasons: series.seasons.update(i, SeasonResource { monitored: true, ..series.seasons[i] }),
        ..series
    }
}

/// Plans the search for season `season_num` of `series`. `None` where the
/// series has no such season.
pub fn search_season(series: &SeriesResource, season_num: i32) -> (r: Option<SeasonSearch>)
    ensures
        match first_index(season_numbers(series@.seasons), season_num) {
            None => r.is_none(),
            Some(i) => r.is_some() && r.unwrap().series_id == series.id
                && r.unwrap().season_number == season_num && if series.seasons@[i].monitored
                && series.monitored {
                r.unwrap().put.is_none()
            } else {
                r.unwrap().put.is_some() && r.unwrap().put.unwrap()@ == with_season_monitored(
                    series@,
                    i,
                )
            },
        },
{
    proof {
        lemma_first_index(season_numbers(series@.seasons), season_num);
    }
    match season_index(&series.seasons, season_num) {
        None => None,
        Some(i) => {
            let put = if series.seasons[i].monitored && series.monitored {
                None
            } else {
                let mut copy = series.clone();
                copy.monitored = true;
                copy.seasons[i].monitored = true;
                assert(copy.seasons@ =~= series.seasons@.update(
                    i as int,
                    SeasonResource { monitored: true, ..series.seasons@[i as int] },
                ));
                Some(copy)
            };
            Some(SeasonSearch { put, series_id: series.id, season_number: season_num })
        },
    }
}

} // verus!
