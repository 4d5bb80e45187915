//! Progress reporting with a batched hot path: each worker accumulates
//! increments in a local handle and only pushes them to the shared counter
//! when a self-tuning threshold is crossed, aiming at roughly one flush per
//! second. No report is ever lost: the counter plus the pending local counts
//! always add up to everything reported.

use vstd::prelude::*;
use std::io::Write;
use crate::time::{elapsed_millis, instant_now};

verus! {

/// The largest threshold the self-tuning is allowed to reach.
pub const MAX_INTERVAL: u64 = 0x1_0000_0000;

/// The shared counter with its display bookkeeping.
pub struct ProgressReporter {
    desc: String,
    start_time: std::time::Instant,
    interval: u64,
    counter: u64,
    total: u64,
}

/// A per-worker batch of increments not yet pushed to the reporter.
pub struct ProgressHandle {
    last_report: std::time::Instant,
    interval: u64,
    local_counter: u64,
}

/// Relies on writeln to standard output; display only.
#[verifier::external_body]
fn print_progress(desc: &String, cur: u64, rate: u64, remain_s: u64) {
    let _ = writeln!(std::io::stdout(), "[{}] {} ({}/s, {}s remain)", desc, cur, rate, remain_s);
}

impl ProgressHandle {
    /// Increments not yet pushed to the reporter.
    pub closed spec fn pending(&self) -> int {
        self.local_counter as int
    }

    pub closed spec fn wf(&self) -> bool {
        1 <= self.interval <= MAX_INTERVAL
    }

    /// Counts `increment` finished items; pushes the batch to the reporter
    /// when the local threshold is crossed.
    pub fn report(&mut self, reporter: &mut ProgressReporter, increment: u64)
        requires
            old(self).wf(),
            old(reporter).wf(),
            old(reporter).counted() + old(self).pending() + increment <= old(
                reporter,
            ).total_spec(),
        ensures
            final(self).wf(),
            final(reporter).wf(),
            final(reporter).total_spec() == old(reporter).total_spec(),
            final(reporter).counted() + final(self).pending() == old(reporter).counted() + old(
                self,
            ).pending() + increment,
    {
        self.local_counter = self.local_counter + increment;
        if self.local_counter >= self.interval {
            self.push(reporter);
        }
    }

    /// Pushes the pending batch to the reporter and retunes the threshold
    /// toward one flush per second.
    pub fn push(&mut self, reporter: &mut ProgressReporter)
        requires
            old(self).wf(),
            old(reporter).wf(),
            old(reporter).counted() + old(self).pending() <= old(reporter).total_spec(),
        ensures
            final(self).wf(),
            final(self).pending() == 0,
            final(reporter).wf(),
            final(reporter).total_spec() == old(reporter).total_spec(),
            final(reporter).counted() == old(reporter).counted() + old(self).pending(),
    {
        let elapsed = elapsed_millis(&self.last_report);
        let elapsed = if elapsed < 1 {
            1u64
        } else {
            elapsed
        };
        // One flush per second means scaling the threshold by 1000 / elapsed,
        // with the ratio clamped to [1/4, 4].
        let mut next = (((self.interval as u128) * 1000) / (elapsed as u128)) as u64;
        if next > self.interval * 4 {
            next = self.interval * 4;
        }
        if next < self.interval / 4 {
            next = self.interval / 4;
        }
        if next < 1 {
            next = 1;
        }
        if next > MAX_INTERVAL {
            next = MAX_INTERVAL;
        }
        self.interval = next;
        reporter.report_up(self.local_counter);
        self.local_counter = 0;
        self.last_report = instant_now();
    }
}

impl ProgressReporter {
    /// Items counted so far.
    pub closed spec fn counted(&self) -> int {
        self.counter as int
    }

    /// The total amount of work being tracked.
    pub closed spec fn total_spec(&self) -> int {
        self.total as int
    }

    pub closed spec fn wf(&self) -> bool {
        &&& self.counter <= self.total
        &&& 1 <= self.interval <= MAX_INTERVAL
    }

    pub fn new(desc: &str, total: usize) -> (r: Self)
        ensures
            r.wf(),
            r.counted() == 0,
            r.total_spec() == total,
    {
        ProgressReporter {
            desc: desc.to_owned(),
            start_time: instant_now(),
            interval: 1000,
            counter: 0,
            total: total as u64,
        }
    }

    /// A fresh batch for one worker.
    pub fn handle(&self) -> (h: ProgressHandle)
        ensures
            h.wf(),
            h.pending() == 0,
    {
        ProgressHandle { last_report: instant_now(), interval: 10000, local_counter: 0 }
    }

    /// Adds a pushed batch to the shared counter, displaying a line whenever
    /// the counter crosses a whole display interval.
    fn report_up(&mut self, count: u64)
        requires
            old(self).wf(),
            old(self).counted() + count <= old(self).total_spec(),
        ensures
            final(self).wf(),
            final(self).total_spec() == old(self).total_spec(),
            final(self).counted() == old(self).counted() + count,
    {
        let prior = self.counter;
        self.counter = self.counter + count;
        if prior / self.interval != self.counter / self.interval {
            self.display();
        }
    }

    /// Prints one progress line and retunes the display interval toward the
    /// current rate.
    fn display(&mut self)
        requires
            old(self).wf(),
        ensures
            final(self).wf(),
            final(self).total_spec() == old(self).total_spec(),
            final(self).counted() == old(self).counted(),
    {
        let curval = self.counter;
        let elapsed = elapsed_millis(&self.start_time);
        let elapsed = if elapsed < 1 {
            1u64
        } else {
            elapsed
        };
        let rate = (((curval as u128) * 1000) / (elapsed as u128)) as u64;

        let mut new_interval = rate;
        if new_interval > self.interval * 4 {
            new_interval = self.interval * 4;
        }
        if new_interval < 100 {
            new_interval = 100;
        }
        if new_interval > MAX_INTERVAL {
            new_interval = MAX_INTERVAL;
        }
        self.interval = new_interval;

        let remain_s = if rate < 1 {
            0u64
        } else {
            (self.total - curval) / rate
        };
        print_progress(&self.desc, curval, rate, remain_s);
    }
}

} // verus!
