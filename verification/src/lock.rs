//! Locks on shards: a marker file beside the shard, created by the one who
//! holds the lock and deleted by the same when the work is done.
//!
//! The holder deletes the marker on every way out of its work and does not
//! report a deletion that failed: a marker left behind makes a later
//! attempt wait until its time runs out, and harms no data.

use vstd::prelude::*;

use crate::error::{ErrorSource, IoKind, TableError, TableOperation};
use crate::path::{replaced_extension, with_extension};

verus! {

/// The path of the marker that locks a resource: the path of the resource
/// with `lock` for its extension.
pub open spec fn lock_path(resource: Seq<char>) -> Seq<char> {
    replaced_extension(resource, "lock"@)
}

/// The path of the marker that locks `resource`.
pub fn get_lock_path(resource: &str) -> (path: String)
    ensures
        path@ == lock_path(resource@),
{
    with_extension(resource, "lock")
}

/// How long to wait for a lock, and how long to rest between attempts, both
/// in milliseconds.
#[derive(Clone, Copy, Debug, PartialEq, Eq, Structural)]
pub struct LockConfig {
    pub lock_timeout: u64,
    pub retry_interval: u64,
}

impl LockConfig {
    /// Two seconds of waiting, with an attempt every fifty milliseconds.
    pub open spec fn standard() -> LockConfig {
        LockConfig { lock_timeout: 2000, retry_interval: 50 }
    }
}

impl Default for LockConfig {
    /// Two seconds of waiting, with an attempt every fifty milliseconds.
    fn default() -> (config: Self)
        ensures
            config == LockConfig::standard(),
    {
        LockConfig { lock_timeout: 2000, retry_interval: 50 }
    }
}

/// A lock that is held: the path of its marker.
#[derive(Debug)]
pub struct LockGuard {
    path: String,
}

impl LockGuard {
    /// The path of the marker.
    pub closed spec fn marker(&self) -> Seq<char> {
        self.path@
    }

    /// The path of the marker, which the holder deletes to release the lock.
    pub fn path(&self) -> (path: &String)
        ensures
            path@ == self.marker(),
    {
        &self.path
    }
}

/// What to do after an attempt to create the marker.
#[derive(Debug)]
pub enum LockStep {
    /// The marker was created: the lock is held.
    Acquired(LockGuard),
    /// The marker exists and there is time left: rest, then try again.
    Retry { sleep_millis: u64 },
    /// The marker exists and the time has run out.
    TimedOut(TableError),
}

/// The kinds of step, without what they carry.
#[derive(Clone, Copy, Debug, PartialEq, Eq, Structural)]
pub enum StepKind {
    Acquired,
    Retry,
    TimedOut,
}

/// The wait is over time once more nanoseconds have passed than the
/// timeout holds.
pub open spec fn over_time(config: LockConfig, elapsed_nanos: u128) -> bool {
    elapsed_nanos > config.lock_timeout * 1_000_000
}

/// The step that follows an attempt: a created marker is the lock, whatever
/// the time; without it the time decides between rest and failure.
pub open spec fn lock_step(config: LockConfig, created: bool, elapsed_nanos: u128) -> StepKind {
    if created {
        StepKind::Acquired
    } else if over_time(config, elapsed_nanos) {
        StepKind::TimedOut
    } else {
        StepKind::Retry
    }
}

impl LockStep {
    /// The kind of the step.
    pub open spec fn kind(self) -> StepKind {
        match self {
            LockStep::Acquired(_) => StepKind::Acquired,
            LockStep::Retry { .. } => StepKind::Retry,
            LockStep::TimedOut(_) => StepKind::TimedOut,
        }
    }
}

/// The error of a wait for the marker at `lock` that ran out of time.
pub fn timeout_error(lock: String) -> (error: TableError)
    ensures
        error.operation == TableOperation::AcquireLock,
        error.path == Some(lock),
        error.source matches ErrorSource::Io { kind, message } && kind == IoKind::TimedOut
            && message@ == "Exceeded timeout for acquiring lock"@,
{
    TableError::io(
        TableOperation::AcquireLock,
        Some(lock),
        IoKind::TimedOut,
        "Exceeded timeout for acquiring lock".to_owned(),
    )
}

/// Decides the step after one attempt to create the marker at `lock`:
/// `created` says whether the attempt made the marker, `elapsed_nanos` how
/// long the wait has lasted since its first attempt.
pub fn acquire_lock(config: &LockConfig, lock: String, created: bool, elapsed_nanos: u128) -> (step:
    LockStep)
    ensures
        step.kind() == lock_step(*config, created, elapsed_nanos),
        step matches LockStep::Acquired(guard) ==> guard.marker() == lock@,
        step matches LockStep::Retry { sleep_millis } ==> sleep_millis == config.retry_interval,
        step matches LockStep::TimedOut(error) ==> {
            &&& error.operation == TableOperation::AcquireLock
            &&& error.path == Some(lock)
            &&& error.source matches ErrorSource::Io { kind, message }
            &&& kind == IoKind::TimedOut
            &&& message@ == "Exceeded timeout for acquiring lock"@
        },
{
    if created {
        return LockStep::Acquired(LockGuard { path: lock });
    }
    let limit: u128 = (config.lock_timeout as u128) * 1_000_000;
    if elapsed_nanos > limit {
        LockStep::TimedOut(timeout_error(lock))
    } else {
        LockStep::Retry { sleep_millis: config.retry_interval }
    }
}

/// Whether an attempt creates the marker at `path`, given the markers that
/// exist: it does where there is none yet.
pub open spec fn creates(markers: Set<Seq<char>>, path: Seq<char>) -> bool {
    !markers.contains(path)
}

/// The markers that exist once the lock at `path` is held.
pub open spec fn held(markers: Set<Seq<char>>, path: Seq<char>) -> Set<Seq<char>> {
    markers.insert(path)
}

/// The markers that exist once the holder of the lock at `path` has released it.
pub open spec fn released(markers: Set<Seq<char>>, path: Seq<char>) -> Set<Seq<char>> {
    markers.remove(path)
}

/// While a lock is held, no attempt on its path acquires it: each attempt
/// within the timeout is told to try again, and the first one after it fails
/// as timed out. Once the holder has released the lock, the next attempt
/// acquires it, however long the wait has lasted.
pub proof fn lemma_held_lock_excludes(
    config: LockConfig,
    markers: Set<Seq<char>>,
    path: Seq<char>,
    elapsed_nanos: u128,
)
    ensures
        lock_step(config, creates(held(markers, path), path), elapsed_nanos) == if over_time(
            config,
            elapsed_nanos,
        ) {
            StepKind::TimedOut
        } else {
            StepKind::Retry
        },
        lock_step(config, creates(released(held(markers, path), path), path), elapsed_nanos)
            == StepKind::Acquired,
{
}

/// A lock on one path leaves every other path free.
pub proof fn lemma_locks_are_apart(
    config: LockConfig,
    markers: Set<Seq<char>>,
    path: Seq<char>,
    other: Seq<char>,
    elapsed_nanos: u128,
)
    requires
        path != other,
        creates(markers, other),
    ensures
        lock_step(config, creates(held(markers, path), other), elapsed_nanos)
            == StepKind::Acquired,
{
}

} // verus!
