//! Time-bounded suppression of repeated events.
//!
//! Timestamps are milliseconds on a monotonic clock private to each cache.
//! An entry older than the retention window is dropped before every check,
//! and a repeat does not refresh the entry it hits.
use crate::media_server::{NowPlaying, NowPlayingView};
use vstd::prelude::*;

verus! {

/// How long an event stays seen: seven days, in milliseconds.
pub const RETAIN_MILLIS: u64 = 604_800_000;

/// An entry recorded at `touched` is still live at `now`: it is at most the
/// retention window old (one stamped after `now` counts as age zero).
pub open spec fn fresh(touched: u64, now: u64) -> bool {
    now <= touched + RETAIN_MILLIS
}

/// The entries of `s` that are still live at `now`, in their order.
pub open spec fn pruned(s: Seq<(NowPlayingView, u64)>, now: u64) -> Seq<(NowPlayingView, u64)> {
    s.filter(|e: (NowPlayingView, u64)| fresh(e.1, now))
}

/// `s` holds a live entry for `np` at `now`.
pub open spec fn seen_at(s: Seq<(NowPlayingView, u64)>, np: NowPlayingView, now: u64) -> bool {
    exists|i: int| 0 <= i < s.len() && #[trigger] s[i].0 == np && fresh(s[i].1, now)
}

/// No event has two entries.
pub open spec fn unique_keys(s: Seq<(NowPlayingView, u64)>) -> bool {
    forall|i: int, j: int| 0 <= i < j < s.len() ==> #[trigger] s[i].0 != #[trigger] s[j].0
}

/// The entries after a check of `np` at `now`: the live ones, and `np`
/// stamped with `now` where it had no live entry.
pub open spec fn after_once(
    s: Seq<(NowPlayingView, u64)>,
    np: NowPlayingView,
    now: u64,
) -> Seq<(NowPlayingView, u64)> {
    if seen_at(s, np, now) {
        pruned(s, now)
    } else {
        pruned(s, now).push((np, now))
    }
}

/// One recorded event and when it was first seen.
pub struct Entry {
    pub event: NowPlaying,
    pub touched: u64,
}

/// Relies on `std::time::Instant`, an opaque point on the monotonic clock.
#[verifier::external_type_specification]
#[verifier::external_body]
pub struct ExInstant(std::time::Instant);

/// Relies on `Instant::now`: the current point on the monotonic clock.
#[verifier::external_body]
fn instant_now() -> std::time::Instant {
    std::time::Instant::now()
}

/// Relies on `Instant::elapsed`: whole milliseconds since `origin`, saturated
/// at `u64::MAX`. The value depends on the clock, so nothing is promised.
#[verifier::external_body]
fn millis_since(origin: &std::time::Instant) -> u64 {
    u64::try_from(origin.elapsed().as_millis()).unwrap_or(u64::MAX)
}

/// The events seen within the retention window.
pub struct Seen {
    entries: Vec<Entry>,
    origin: std::time::Instant,
}

impl View for Seen {
    type V = Seq<(NowPlayingView, u64)>;

    closed spec fn view(&self) -> Seq<(NowPlayingView, u64)> {
        Seq::new(self.entries@.len(), |i: int| (self.entries@[i].event@, self.entries@[i].touched))
    }
}

impl Default for Seen {
    fn default() -> (r: Seen)
        ensures
            r.wf(),
            r@ == Seq::<(NowPlayingView, u64)>::empty(),
    {
        Seen::new()
    }
}

impl Seen {
    pub closed spec fn wf(&self) -> bool {
        unique_keys(self@)
    }

    /// An empty cache whose clock starts now.
    pub fn new() -> (r: Seen)
        ensures
            r.wf(),
            r@ == Seq::<(NowPlayingView, u64)>::empty(),
    {
        let r = Seen { entries: Vec::new(), origin: instant_now() };
        assert(r@ =~= Seq::<(NowPlayingView, u64)>::empty());
        r
    }

    /// Returns true the first time `np` is seen within the retention window,
    /// as of the current time on the cache's clock; see [`Seen::once_at`].
    pub fn once(&mut self, np: NowPlaying) -> (first: bool)
        requires
            old(self).wf(),
        ensures
            final(self).wf(),
            exists|now: u64|
                #[trigger] after_once(old(self)@, np@, now) == final(self)@ && first == !seen_at(
                    old(self)@,
                    np@,
                    now,
                ),
    {
        let now = millis_since(&self.origin);
        self.once_at(np, now)
    }

    /// Drops the entries that are older than the retention window at `now`,
    /// then returns whether `np` had no live entry, recording it with `now`
    /// if so. A repeat leaves the entry's timestamp as it was.
    pub fn once_at(&mut self, np: NowPlaying, now: u64) -> (first: bool)
        requires
            old(self).wf(),
        ensures
            final(self).wf(),
            first == !seen_at(old(self)@, np@, now),
            final(self)@ == after_once(old(self)@, np@, now),
    {
        let ghost old_view = self@;
        let first = !self.contains_live(&np, now);
        self.prune(now);
        proof {
            lemma_pruned_keeps_keys(old_view, np@, now);
        }
        if first {
            let ghost before = self@;
            self.entries.push(Entry { event: np, touched: now });
            assert(self@ =~= before.push((np@, now)));
        }
        first
    }

    fn contains_live(&self, np: &NowPlaying, now: u64) -> (r: bool)
        ensures
            r == seen_at(self@, np@, now),
    {
        let mut i: usize = 0;
        while i < self.entries.len()
            invariant
                i <= self.entries@.len(),
                forall|j: int|
                    0 <= j < i ==> !(#[trigger] self@[j].0 == np@ && fresh(self@[j].1, now)),
            decreases self.entries@.len() - i,
        {
            let e = &self.entries[i];
            if e.event.eq(np) && (now <= e.touched || now - e.touched <= RETAIN_MILLIS) {
                assert(self@[i as int].0 == np@ && fresh(self@[i as int].1, now));
                return true;
            }
            i = i + 1;
        }
        false
    }

    fn prune(&mut self, now: u64)
        requires
            old(self).wf(),
        ensures
            final(self).wf(),
            final(self)@ == pruned(old(self)@, now),
            final(self).origin == old(self).origin,
    {
        let ghost s = self@;
        let mut kept: Vec<Entry> = Vec::new();
        let mut i: usize = 0;
        while i < self.entries.len()
            invariant
                i <= self.entries@.len(),
                s == self@,
                Seq::new(kept@.len(), |k: int| (kept@[k].event@, kept@[k].touched)) == pruned(
                    s.take(i as int),
                    now,
                ),
            decreases self.entries@.len() - i,
        {
            let ghost kept_before = Seq::new(
                kept@.len(),
                |k: int| (kept@[k].event@, kept@[k].touched),
            );
            assert(s.take(i as int + 1).drop_last() =~= s.take(i as int));
            proof {
                reveal(Seq::filter);
            }
            let e = &self.entries[i];
            if now <= e.touched || now - e.touched <= RETAIN_MILLIS {
                kept.push(Entry { event: e.event.clone(), touched: e.touched });
                assert(Seq::new(kept@.len(), |k: int| (kept@[k].event@, kept@[k].touched))
                    =~= kept_before.push(s[i as int]));
            } else {
                assert(Seq::new(kept@.len(), |k: int| (kept@[k].event@, kept@[k].touched))
                    =~= kept_before);
            }
            i = i + 1;
        }
        assert(s.take(s.len() as int) =~= s);
        proof {
            reveal(Seq::filter);
        }
        self.entries = kept;
        proof {
            lemma_pruned_unique(s, now);
        }
    }
}

/// Every entry that pruning keeps is a live entry of the input.
proof fn lemma_pruned_sound(s: Seq<(NowPlayingView, u64)>, now: u64)
    ensures
        forall|i: int|
            0 <= i < pruned(s, now).len() ==> exists|k: int|
                0 <= k < s.len() && s[k] == #[trigger] pruned(s, now)[i] && fresh(s[k].1, now),
    decreases s.len(),
{
    reveal(Seq::filter);
    if s.len() > 0 {
        let init = s.drop_last();
        lemma_pruned_sound(init, now);
        assert forall|i: int| 0 <= i < pruned(s, now).len() implies exists|k: int|
            0 <= k < s.len() && s[k] == #[trigger] pruned(s, now)[i] && fresh(s[k].1, now) by {
            if i < pruned(init, now).len() {
                assert(pruned(s, now)[i] == pruned(init, now)[i]);
                let k = choose|k: int|
                    0 <= k < init.len() && init[k] == #[trigger] pruned(init, now)[i] && fresh(
                        init[k].1,
                        now,
                    );
                assert(s[k] == init[k]);
            } else {
                assert(s[s.len() - 1] == pruned(s, now)[i]);
            }
        }
    }
}

/// Every live entry of the input survives pruning.
proof fn lemma_pruned_complete(s: Seq<(NowPlayingView, u64)>, now: u64, k: int)
    requires
        0 <= k < s.len(),
        fresh(s[k].1, now),
    ensures
        exists|i: int| 0 <= i < pruned(s, now).len() && #[trigger] pruned(s, now)[i] == s[k],
    decreases s.len(),
{
    reveal(Seq::filter);
    let init = s.drop_last();
    if k == s.len() - 1 {
        assert(pruned(s, now)[pruned(s, now).len() - 1] == s[k]);
    } else {
        assert(init[k] == s[k]);
        lemma_pruned_complete(init, now, k);
        let i = choose|i: int| 0 <= i < pruned(init, now).len() && #[trigger] pruned(init, now)[i] == init[k];
        assert(pruned(s, now)[i] == pruned(init, now)[i]);
    }
}

/// Pruning keeps exactly the live entries, so a live entry for `np` survives
/// and no entry for `np` survives where none was live.
proof fn lemma_pruned_keeps_keys(s: Seq<(NowPlayingView, u64)>, np: NowPlayingView, now: u64)
    ensures
        seen_at(s, np, now) <==> exists|i: int|
            0 <= i < pruned(s, now).len() && #[trigger] pruned(s, now)[i].0 == np,
        forall|i: int| 0 <= i < pruned(s, now).len() ==> fresh(#[trigger] pruned(s, now)[i].1, now),
        unique_keys(s) && !seen_at(s, np, now) ==> unique_keys(pruned(s, now).push((np, now))),
{
    lemma_pruned_sound(s, now);
    assert forall|i: int| 0 <= i < pruned(s, now).len() implies fresh(
        #[trigger] pruned(s, now)[i].1,
        now,
    ) by {
        let k = choose|k: int|
            0 <= k < s.len() && s[k] == #[trigger] pruned(s, now)[i] && fresh(s[k].1, now);
    }
    if seen_at(s, np, now) {
        let k = choose|k: int| 0 <= k < s.len() && #[trigger] s[k].0 == np && fresh(s[k].1, now);
        lemma_pruned_complete(s, now, k);
        let i = choose|i: int| 0 <= i < pruned(s, now).len() && #[trigger] pruned(s, now)[i] == s[k];
        assert(pruned(s, now)[i].0 == np);
    }
    if exists|i: int| 0 <= i < pruned(s, now).len() && #[trigger] pruned(s, now)[i].0 == np {
        let i = choose|i: int| 0 <= i < pruned(s, now).len() && #[trigger] pruned(s, now)[i].0 == np;
        let k = choose|k: int|
            0 <= k < s.len() && s[k] == #[trigger] pruned(s, now)[i] && fresh(s[k].1, now);
        assert(s[k].0 == np && fresh(s[k].1, now));
    }
    if unique_keys(s) && !seen_at(s, np, now) {
        lemma_pruned_unique(s, now);
        let q = pruned(s, now).push((np, now));
        assert forall|i: int, j: int| 0 <= i < j < q.len() implies #[trigger] q[i].0
            != #[trigger] q[j].0 by {
            if j == q.len() - 1 {
                assert(q[i] == pruned(s, now)[i]);
            }
        }
    }
}

/// Pruning keeps keys unique.
proof fn lemma_pruned_unique(s: Seq<(NowPlayingView, u64)>, now: u64)
    requires
        unique_keys(s),
    ensures
        unique_keys(pruned(s, now)),
    decreases s.len(),
{
    reveal(Seq::filter);
    if s.len() > 0 {
        let init = s.drop_last();
        assert(unique_keys(init)) by {
            assert forall|i: int, j: int| 0 <= i < j < init.len() implies #[trigger] init[i].0
                != #[trigger] init[j].0 by {
                assert(init[i] == s[i] && init[j] == s[j]);
            }
        }
        lemma_pruned_unique(init, now);
        lemma_pruned_sound(init, now);
        let last = s.last();
        if fresh(last.1, now) {
            let q = pruned(init, now).push(last);
            assert forall|i: int, j: int| 0 <= i < j < q.len() implies #[trigger] q[i].0
                != #[trigger] q[j].0 by {
                if j == q.len() - 1 {
                    assert(q[i] == pruned(init, now)[i]);
                    let k = choose|k: int|
                        0 <= k < init.len() && init[k] == #[trigger] pruned(init, now)[i]
                            && fresh(init[k].1, now);
                    assert(s[k] == init[k]);
                    assert(s[s.len() - 1] == last);
                }
            }
        }
    }
}

/// The first check of an event on an empty cache reports it as new, and a
/// check of an event that was just recorded or found live reports a repeat:
/// right after `once_at(np, now)`, a second `once_at(np, now)` returns false,
/// whatever the cache held before.
pub proof fn lemma_repeat_suppressed(s: Seq<(NowPlayingView, u64)>, np: NowPlayingView, now: u64)
    ensures
        !seen_at(Seq::empty(), np, now),
        seen_at(after_once(s, np, now), np, now),
{
    lemma_pruned_keeps_keys(s, np, now);
    let t = after_once(s, np, now);
    if seen_at(s, np, now) {
        let i = choose|i: int| 0 <= i < pruned(s, now).len() && #[trigger] pruned(s, now)[i].0 == np;
        assert(fresh(pruned(s, now)[i].1, now));
        assert(t[i].0 == np && fresh(t[i].1, now));
    } else {
        let last = t.len() - 1;
        assert(t[last] == (np, now));
        assert(t[last].0 == np && fresh(t[last].1, now));
    }
}

/// An event whose every entry is older than the retention window counts as
/// unseen: `once_at` returns true for it and records it afresh.
pub proof fn lemma_expired_is_unseen(s: Seq<(NowPlayingView, u64)>, np: NowPlayingView, now: u64)
    requires
        forall|i: int| 0 <= i < s.len() && #[trigger] s[i].0 == np ==> s[i].1 + RETAIN_MILLIS < now,
    ensures
        !seen_at(s, np, now),
        after_once(s, np, now) == pruned(s, now).push((np, now)),
{
}

} // verus!
