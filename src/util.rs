//! Bounded retry with exponential backoff, as a schedule that a driver follows.
//!
//! The driver makes the first attempt at once. After each failed attempt it
//! asks [`Retry::on_failure`] what to do: wait the returned number of time
//! units and try again, or give up and hand back the last error.
use vstd::arithmetic::power2::{
    lemma2_to64, lemma2_to64_rest, lemma_pow2_strictly_increases, lemma_pow2_unfold, pow2,
};
use vstd::prelude::*;

pub mod once;

verus! {

/// Time units to wait before the attempt with index `attempt` (the first
/// attempt has index 0): `2^attempt`, saturated at `u64::MAX`.
pub open spec fn backoff(attempt: nat) -> nat {
    if pow2(attempt) > u64::MAX {
        u64::MAX as nat
    } else {
        pow2(attempt)
    }
}

/// Total time units waited when `retries` retries all fail: the sum of the
/// waits before attempts `1..=retries`.
pub open spec fn total_backoff(retries: nat) -> nat
    decreases retries,
{
    if retries == 0 {
        0
    } else {
        total_backoff((retries - 1) as nat) + backoff(retries)
    }
}

/// When every attempt fails, `retries` retries wait `2^(retries+1) - 2` time
/// units in all (2 + 4 + ... + 2^retries), as long as no single wait
/// saturates.
pub proof fn lemma_total_backoff(retries: nat)
    requires
        retries < 64,
    ensures
        total_backoff(retries) + 2 == pow2(retries + 1),
    decreases retries,
{
    lemma2_to64_rest();
    if retries < 63 {
        lemma_pow2_strictly_increases(retries, 63);
    }
    lemma_pow2_unfold(retries + 1);
    if retries > 0 {
        lemma_total_backoff((retries - 1) as nat);
    } else {
        lemma2_to64();
    }
}

/// Where a run of attempts stands: how many retries it may make, how many
/// attempts have failed so far, and whether it has given up.
pub struct Retry {
    retries: usize,
    failed: usize,
    exhausted: bool,
}

impl Retry {
    pub closed spec fn retries(&self) -> nat {
        self.retries as nat
    }

    /// Failed attempts that were followed by a retry.
    pub closed spec fn failed(&self) -> nat {
        self.failed as nat
    }

    pub closed spec fn exhausted(&self) -> bool {
        self.exhausted
    }

    pub closed spec fn wf(&self) -> bool {
        self.failed <= self.retries
    }

    /// A schedule for up to `retries + 1` attempts, none made yet.
    pub fn new(retries: usize) -> (r: Retry)
        ensures
            r.wf(),
            r.retries() == retries,
            r.failed() == 0,
            !r.exhausted(),
    {
        Retry { retries, failed: 0, exhausted: false }
    }

    /// Records that the latest attempt failed. Returns the wait before the
    /// next attempt, or `None` once all `retries + 1` attempts have failed.
    pub fn on_failure(&mut self) -> (wait: Option<u64>)
        requires
            old(self).wf(),
            !old(self).exhausted(),
        ensures
            final(self).wf(),
            final(self).retries() == old(self).retries(),
            old(self).failed() < old(self).retries() ==> {
                &&& wait == Some(backoff(old(self).failed() + 1) as u64)
                &&& final(self).failed() == old(self).failed() + 1
                &&& !final(self).exhausted()
            },
            old(self).failed() == old(self).retries() ==> {
                &&& wait.is_none()
                &&& final(self).failed() == old(self).failed()
                &&& final(self).exhausted()
            },
    {
        if self.failed < self.retries {
            self.failed = self.failed + 1;
            Some(delay(self.failed))
        } else {
            self.exhausted = true;
            None
        }
    }
}

/// The wait before the attempt with index `attempt`: `2^attempt` time units,
/// saturated at `u64::MAX`.
pub fn delay(attempt: usize) -> (units: u64)
    ensures
        units == backoff(attempt as nat),
{
    proof {
        lemma2_to64();
        lemma2_to64_rest();
    }
    if attempt >= 64 {
        proof {
            if attempt > 64 {
                lemma_pow2_strictly_increases(64, attempt as nat);
            }
        }
        return u64::MAX;
    }
    proof {
        if attempt < 63 {
            lemma_pow2_strictly_increases(attempt as nat, 63);
        }
    }
    let mut units: u64 = 1;
    let mut k: usize = 0;
    while k < attempt
        invariant
            k <= attempt < 64,
            units == pow2(k as nat),
            pow2(attempt as nat) <= 0x8000_0000_0000_0000,
        decreases attempt - k,
    {
        proof {
            lemma_pow2_unfold((k + 1) as nat);
            if k + 1 < attempt {
                lemma_pow2_strictly_increases((k + 1) as nat, attempt as nat);
            }
        }
        units = units * 2;
        k = k + 1;
    }
    units
}

/// Relies on `Duration::from_secs`: a span of `secs` whole seconds.
pub assume_specification[ core::time::Duration::from_secs ](secs: u64) -> core::time::Duration;

/// The span of `units` time units, one unit being one second.
pub fn duration(units: u64) -> core::time::Duration {
    core::time::Duration::from_secs(units)
}

} // verus!
