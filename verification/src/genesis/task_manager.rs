//! The jobs of one import, their shared cancellation signal and the point at
//! which they are joined.
//!
//! Of several failed jobs the one that was spawned first gives the error of
//! the run, whatever the order in which the jobs came to their end.

use crate::genesis::import_task::ImportError;
use fuel_core_services::StateWatcher;
use std::sync::atomic::AtomicBool;
use std::sync::atomic::Ordering;
use std::sync::Arc;
use vstd::prelude::*;

verus! {

/// The view on the life cycle of the node, as `fuel_core_services::StateWatcher`
/// holds it. The library asks it whether the node is shutting down and knows
/// nothing else of it.
#[verifier::external_type_specification]
#[verifier::external_body]
pub struct ExStateWatcher(StateWatcher);

/// `StateWatcher::clone` copies the receiver that the watcher holds: the copy
/// points to the same channel and has seen the same of it, so it is the same
/// view on the same life cycle.
pub assume_specification[ <StateWatcher as Clone>::clone ](watcher: &StateWatcher) -> (copy: StateWatcher)
    ensures
        copy == *watcher,
;

/// `Arc::clone` gives another pointer to the same flag.
#[verifier::external_body]
fn share_flag(flag: &Arc<AtomicBool>) -> (shared: Arc<AtomicBool>)
    ensures
        shared == *flag,
{
    Arc::clone(flag)
}

/// Asks `StateWatcher::borrow` for the state of the node and `State::stopping`
/// whether it is shutting down. The answer depends on when it is asked:
/// nothing is claimed of it.
#[verifier::external_body]
fn watcher_is_stopping(watcher: &StateWatcher) -> (stopping: bool) {
    watcher.borrow().stopping()
}

/// Asks `StateWatcher::borrow` for the state of the node and `State::stopped`
/// whether it has shut down. The answer depends on when it is asked: nothing
/// is claimed of it.
#[verifier::external_body]
fn watcher_is_stopped(watcher: &StateWatcher) -> (stopped: bool) {
    watcher.borrow().stopped()
}

/// The cancellation signal of one import: a flag that the import sets itself
/// when a job fails, together with the shutdown signal of the node. Both are
/// looked at in the same places and mean the same.
#[derive(Clone)]
pub struct CancellationToken {
    flag: Arc<AtomicBool>,
    watcher: StateWatcher,
}

impl CancellationToken {
    /// The view on the life cycle of the node that the signal follows.
    pub closed spec fn watcher(self) -> StateWatcher {
        self.watcher
    }

    /// A signal that is not set, tied to the shutdown signal of the node.
    pub fn new(watcher: StateWatcher) -> (token: CancellationToken)
        ensures
            token.watcher() == watcher,
    {
        CancellationToken { flag: Arc::new(AtomicBool::new(false)), watcher }
    }

    /// What the signal says, given what its parts say: the flag that the
    /// import sets itself, and whether the node is shutting down or has shut
    /// down. Each of them asks the jobs to stop, and none outweighs another.
    pub fn stop_asked(flag_set: bool, stopping: bool, stopped: bool) -> (stop: bool)
        ensures
            stop == (flag_set || stopping || stopped),
    {
        flag_set || stopping || stopped
    }

    /// Sets the signal. It stays set.
    pub fn cancel(&self) {
        self.flag.store(true, Ordering::SeqCst);
    }

    /// Whether the signal is set or the node is shutting down: what
    /// `stop_asked` says of the flag and of the node at the time of the call.
    pub fn is_cancelled(&self) -> (cancelled: bool) {
        let flag_set = self.flag.load(Ordering::SeqCst);
        let stopping = watcher_is_stopping(&self.watcher);
        let stopped = watcher_is_stopped(&self.watcher);
        CancellationToken::stop_asked(flag_set, stopping, stopped)
    }
}

/// The first failure among the jobs from `from` on, in the order in which the
/// jobs were spawned.
pub open spec fn first_failure_from<T>(jobs: Seq<Option<Result<T, ImportError>>>, from: int) -> Option<
    ImportError,
>
    decreases jobs.len() - from,
{
    if from < 0 || from >= jobs.len() {
        None
    } else {
        match jobs[from] {
            Some(Err(error)) => Some(error),
            _ => first_failure_from(jobs, from + 1),
        }
    }
}

/// The failure that a run with these jobs ends with: that of the failed job
/// that was spawned first.
pub open spec fn first_failure<T>(jobs: Seq<Option<Result<T, ImportError>>>) -> Option<ImportError> {
    first_failure_from(jobs, 0)
}

/// Whether every job has come to its end.
pub open spec fn all_terminated<T>(jobs: Seq<Option<Result<T, ImportError>>>) -> bool {
    forall|job: int| 0 <= job < jobs.len() ==> (#[trigger] jobs[job]) is Some
}

/// The jobs of one import and their cancellation signal.
pub struct TaskManager<T> {
    cancel_token: CancellationToken,
    signalled: bool,
    results: Vec<Option<Result<T, ImportError>>>,
}

impl<T> TaskManager<T> {
    /// The jobs in the order in which they were spawned, each with its result
    /// once it has come to its end.
    pub closed spec fn jobs(self) -> Seq<Option<Result<T, ImportError>>> {
        self.results@
    }

    /// Whether the import has set its cancellation signal.
    pub closed spec fn signalled(self) -> bool {
        self.signalled
    }

    /// The cancellation signal that the manager shares with its jobs.
    pub closed spec fn signal(self) -> CancellationToken {
        self.cancel_token
    }

    /// A manager without jobs whose signal is not set and follows `watcher`.
    pub fn new(watcher: StateWatcher) -> (manager: TaskManager<T>)
        ensures
            manager.jobs() == Seq::<Option<Result<T, ImportError>>>::empty(),
            !manager.signalled(),
            manager.signal().watcher() == watcher,
    {
        TaskManager { cancel_token: CancellationToken::new(watcher), signalled: false, results: Vec::new() }
    }

    /// The cancellation signal, for a job to take along: the flag and the
    /// view on the node that the manager itself sets and looks at.
    pub fn token(&self) -> (token: CancellationToken)
        ensures
            token == self.signal(),
    {
        CancellationToken {
            flag: share_flag(&self.cancel_token.flag),
            watcher: self.cancel_token.watcher.clone(),
        }
    }

    /// Registers one more job and returns its number. The job runs on its own;
    /// it reports its end with `finish`.
    pub fn spawn(&mut self) -> (job: usize)
        ensures
            job == old(self).jobs().len(),
            final(self).jobs() == old(self).jobs().push(None),
            final(self).signalled() == old(self).signalled(),
            final(self).signal() == old(self).signal(),
    {
        let job = self.results.len();
        self.results.push(None);
        job
    }

    /// Whether the jobs have to stop, where `seen` is what the shared signal
    /// says: they stop when the import has set its signal, whatever is seen of
    /// the shared one, and when the shared one says so.
    pub fn must_stop(&self, seen: bool) -> (stop: bool)
        ensures
            stop == (self.signalled() || seen),
    {
        self.signalled || seen
    }

    /// Whether the jobs have to stop: the import has set its signal, or the
    /// signal was set from outside, or the node is shutting down. It is what
    /// `must_stop` says of what the shared signal says at the time of the
    /// call.
    pub fn is_cancelled(&self) -> (cancelled: bool)
        ensures
            self.signalled() ==> cancelled,
    {
        let seen = self.cancel_token.is_cancelled();
        self.must_stop(seen)
    }

    /// Records the end of `job`. A failure sets the cancellation signal. The
    /// end of a job that is unknown or has ended before is not recorded, and
    /// `false` is returned.
    pub fn finish(&mut self, job: usize, result: Result<T, ImportError>) -> (recorded: bool)
        ensures
            recorded == (job < old(self).jobs().len() && old(self).jobs()[job as int] is None),
            recorded ==> final(self).jobs() == old(self).jobs().update(job as int, Some(result)),
            recorded ==> final(self).signalled() == (old(self).signalled() || result is Err),
            !recorded ==> final(self).jobs() == old(self).jobs() && final(self).signalled() == old(
                self,
            ).signalled(),
            final(self).signal() == old(self).signal(),
    {
        if job >= self.results.len() {
            return false;
        }
        if self.results[job].is_some() {
            return false;
        }
        if result.is_err() {
            self.signalled = true;
            self.cancel_token.cancel();
        }
        self.results[job] = Some(result);
        true
    }

    /// Whether every job has come to its end.
    pub fn all_finished(&self) -> (finished: bool)
        ensures
            finished == all_terminated(self.jobs()),
    {
        let mut job: usize = 0;
        while job < self.results.len()
            invariant
                job <= self.results@.len(),
                forall|earlier: int| 0 <= earlier < job ==> (#[trigger] self.results@[earlier]) is Some,
            decreases self.results@.len() - job,
        {
            if self.results[job].is_none() {
                return false;
            }
            job += 1;
        }
        true
    }

    /// Joins the jobs, all of which have come to their end: the results of all
    /// jobs in the order in which they were spawned, or the failure of the
    /// failed job that was spawned first.
    pub fn wait(self) -> (outcome: Result<Vec<T>, ImportError>)
        requires
            all_terminated(self.jobs()),
        ensures
            first_failure(self.jobs()) is Some ==> outcome == Err::<Vec<T>, ImportError>(
                first_failure(self.jobs())->0,
            ),
            first_failure(self.jobs()) is None ==> outcome is Ok && outcome->Ok_0@.len()
                == self.jobs().len() && forall|job: int|
                0 <= job < self.jobs().len() ==> (#[trigger] self.jobs()[job]) == Some(
                    Ok::<T, ImportError>(outcome->Ok_0@[job]),
                ),
    {
        let ghost jobs = self.results@;
        let mut job: usize = 0;
        while job < self.results.len()
            invariant
                job <= self.results@.len(),
                self.results@ == jobs,
                first_failure(jobs) == first_failure_from(jobs, job as int),
                forall|earlier: int| 0 <= earlier < job ==> (#[trigger] jobs[earlier]) is Some && jobs[earlier]->0 is Ok,
                all_terminated(jobs),
            decreases self.results@.len() - job,
        {
            match &self.results[job] {
                Some(Err(error)) => {
                    return Err(*error);
                },
                _ => {},
            }
            job += 1;
        }
        let mut results = self.results;
        let mut backwards: Vec<T> = Vec::new();
        while results.len() > 0
            invariant
                results@ == jobs.take(results@.len() as int),
                results@.len() + backwards@.len() == jobs.len(),
                forall|job: int| 0 <= job < jobs.len() ==> (#[trigger] jobs[job]) is Some && jobs[job]->0 is Ok,
                forall|i: int|
                    0 <= i < backwards@.len() ==> jobs[jobs.len() - 1 - i] == Some(
                        Ok::<T, ImportError>(#[trigger] backwards@[i]),
                    ),
            decreases results@.len(),
        {
            let ghost at = results@.len() - 1;
            assert(results@[at] == jobs[at]);
            match results.pop() {
                Some(Some(Ok(value))) => {
                    backwards.push(value);
                },
                _ => {},
            }
        }
        let mut values: Vec<T> = Vec::new();
        while backwards.len() > 0
            invariant
                backwards@.len() + values@.len() == jobs.len(),
                forall|i: int|
                    0 <= i < backwards@.len() ==> jobs[jobs.len() - 1 - i] == Some(
                        Ok::<T, ImportError>(#[trigger] backwards@[i]),
                    ),
                forall|job: int|
                    0 <= job < values@.len() ==> (#[trigger] jobs[job]) == Some(
                        Ok::<T, ImportError>(values@[job]),
                    ),
            decreases backwards@.len(),
        {
            let ghost at = backwards@.len() - 1;
            assert(jobs[jobs.len() - 1 - at] == Some(Ok::<T, ImportError>(backwards@[at])));
            match backwards.pop() {
                Some(value) => {
                    values.push(value);
                },
                None => {},
            }
        }
        Ok(values)
    }
}

} // verus!
