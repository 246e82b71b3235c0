//! When a watch ends, and how long to wait between two ticks.
use vstd::prelude::*;

verus! {

/// Specifies how a watch stops monitoring files. Durations are nanoseconds.
#[derive(Clone, Copy, Debug, PartialEq, Eq, Structural)]
pub enum StopCondition {
    /// Stop right after the first tick.
    Once,
    /// Stop on the first tick where at least this many files were processed
    /// successfully.
    FilesFound(usize),
    /// Stop once at least this much time has passed since the watch began.
    Elapsed(u64),
    /// Stop once at least this much time has passed since the newest
    /// modification time observed.
    NoNewFilesSince(u64),
}

/// Whether `span` has passed from `since` to `now`. An instant `since` that lies
/// after `now` is not yet reached, so nothing has passed.
pub open spec fn span_passed(since: u64, now: u64, span: u64) -> bool {
    since <= now && now - since >= span
}

/// The decision of the stop evaluator at the end of a tick.
pub open spec fn stop_spec(
    condition: StopCondition,
    successes: usize,
    started: u64,
    newest: u64,
    now: u64,
) -> bool {
    match condition {
        StopCondition::Once => true,
        StopCondition::FilesFound(n) => successes >= n,
        StopCondition::Elapsed(d) => span_passed(started, now, d),
        StopCondition::NoNewFilesSince(d) => span_passed(newest, now, d),
    }
}

/// Decides at the end of a tick whether the watch stops.
///
/// `successes` is the number of files processed successfully so far, `started`
/// the instant the watch began, `newest` the newest modification time observed,
/// and `now` the current instant.
pub fn should_stop(
    condition: StopCondition,
    successes: usize,
    started: u64,
    newest: u64,
    now: u64,
) -> (r: bool)
    ensures
        r == stop_spec(condition, successes, started, newest, now),
{
    match condition {
        StopCondition::Once => true,
        StopCondition::FilesFound(n) => successes >= n,
        StopCondition::Elapsed(d) => started <= now && now - started >= d,
        StopCondition::NoNewFilesSince(d) => newest <= now && now - newest >= d,
    }
}

/// How long to sleep after a tick that took `tick` so that ticks start at
/// least `interval` apart; never negative.
pub fn sleep_after(interval: u64, tick: u64) -> (r: u64)
    ensures
        interval > tick ==> r == interval - tick,
        interval <= tick ==> r == 0,
{
    if interval > tick {
        interval - tick
    } else {
        0
    }
}

} // verus!
