//! The scheduler's job registry and the worker cycle's decisions.
//!
//! The registry and the per-cycle decisions are plain data and logic; the
//! surrounding runtime (one concurrent worker per job, a cancellation channel
//! per worker, the suspension until the fire time) lives with the embedding
//! process, which consults [`worker_begin`] and [`worker_after_wake`] and
//! carries out the commands they return.
//!
//! Jobs are identified by a synthetic sequence number, so two descriptors
//! with identical command strings never collide in the registry.

use vstd::prelude::*;

use crate::datetime::DateTime;
use crate::datetime::MAX_YEAR;
use crate::datetime::spec_lt;
use crate::entry::CronEntry;

verus! {

/// What a worker must do next with its cycle.
#[derive(Clone, Debug)]
pub enum WorkerCommand {
    /// A startup job: run the command once, immediately, then terminate.
    RunThenTerminate,
    /// Suspend until the instant, then check for cancellation and run.
    SleepUntil(DateTime),
    /// No occurrence is ever due: terminate without running.
    Terminate,
}

/// The decision at the top of a worker's cycle: a startup job runs once and
/// stops; a recurring job sleeps until the earliest occurrence strictly
/// after `now` (the reference is advanced past the current minute so the
/// minute the worker woke in does not re-fire).
pub fn worker_begin(entry: &CronEntry, now: &DateTime) -> (r: WorkerCommand)
    requires
        entry.wf(),
        now.valid(),
        now.year < MAX_YEAR,
    ensures
        entry.startup ==> r is RunThenTerminate,
        !entry.startup ==> match r {
            WorkerCommand::RunThenTerminate => false,
            WorkerCommand::SleepUntil(t) => {
                &&& t.valid()
                &&& entry.spec_matches(t)
                &&& spec_lt(*now, t)
                &&& forall|u: DateTime|
                    u.valid() && spec_lt(*now, u) && spec_lt(u, t) ==> !(
                    #[trigger] entry.spec_matches(u))
            },
            WorkerCommand::Terminate => forall|u: DateTime|
                u.valid() && spec_lt(*now, u) && u.year + 1 < MAX_YEAR ==> !(
                #[trigger] entry.spec_matches(u)),
        },
{
    if entry.startup {
        WorkerCommand::RunThenTerminate
    } else {
        match entry.next_execution_after(now) {
            Some(t) => WorkerCommand::SleepUntil(t),
            None => WorkerCommand::Terminate,
        }
    }
}

/// The decision after waking: run the command unless a cancellation signal
/// was pending. Cancellation is observed only here, once per cycle — a
/// signal that arrives while the worker sleeps does not stop the fire the
/// worker is sleeping towards, only the next one.
pub fn worker_after_wake(cancelled: bool) -> (run: bool)
    ensures
        run == !cancelled,
{
    !cancelled
}

/// A registered job: the descriptor and the synthetic identity under which
/// the scheduler tracks it.
#[derive(Clone, Debug)]
pub struct CronJob {
    pub id: u64,
    pub entry: CronEntry,
}

impl CronJob {
    /// The job's identity in the registry.
    pub fn id(&self) -> (r: u64)
        ensures
            r == self.id,
    {
        self.id
    }
}

/// The scheduler's registry of active jobs.
#[derive(Clone, Debug)]
pub struct CronScheduler {
    pub cron_path: String,
    pub next_id: u64,
    pub jobs: Vec<CronJob>,
}

impl CronScheduler {
    /// Registered identities are distinct and below the next one to assign.
    pub open spec fn wf(self) -> bool {
        forall|i: int|
            0 <= i < self.jobs@.len() ==> (#[trigger] self.jobs@[i]).id < self.next_id
    }

    /// An empty registry for the crontab at the given path.
    pub fn new(cron_path: String) -> (r: CronScheduler)
        ensures
            r.wf(),
            r.cron_path == cron_path,
            r.next_id == 0,
            r.jobs@.len() == 0,
    {
        CronScheduler { cron_path, next_id: 0, jobs: Vec::new() }
    }

    /// Register a job under a fresh identity and report that identity, so
    /// the caller can spawn a worker and file its cancellation endpoint.
    pub fn start_job(&mut self, entry: CronEntry) -> (id: u64)
        requires
            old(self).wf(),
            old(self).next_id < u64::MAX,
        ensures
            final(self).wf(),
            id == old(self).next_id,
            final(self).next_id == old(self).next_id + 1,
            final(self).jobs@ == old(self).jobs@.push(CronJob { id, entry }),
            final(self).cron_path == old(self).cron_path,
    {
        let id = self.next_id;
        self.next_id = self.next_id + 1;
        self.jobs.push(CronJob { id, entry });
        id
    }

    /// Register every descriptor, in input order, and report the fresh
    /// identities in the same order. The embedding process spawns one worker
    /// per identity; it may stagger the spawns so boot does not start every
    /// worker at the same instant.
    #[verifier::loop_isolation(false)]
    pub fn load(&mut self, entries: Vec<CronEntry>) -> (ids: Vec<u64>)
        requires
            old(self).wf(),
            old(self).next_id + entries@.len() <= u64::MAX,
        ensures
            final(self).wf(),
            final(self).next_id == old(self).next_id + entries@.len(),
            final(self).cron_path == old(self).cron_path,
            final(self).jobs@.len() == old(self).jobs@.len() + entries@.len(),
            forall|i: int|
                0 <= i < old(self).jobs@.len() ==> final(self).jobs@[i] == old(self).jobs@[i],
            forall|k: int|
                0 <= k < entries@.len() ==> final(self).jobs@[old(self).jobs@.len() + k]
                    == (CronJob { id: (old(self).next_id + k) as u64, entry: entries@[k] }),
            ids@.len() == entries@.len(),
            forall|k: int| 0 <= k < ids@.len() ==> ids@[k] == old(self).next_id + k,
    {
        let mut ids: Vec<u64> = Vec::new();
        let n = entries.len();
        let mut k: usize = 0;
        let mut rest = entries;
        while k < n
            invariant
                k <= n,
                rest@ == entries@.skip(k as int),
                self.wf(),
                self.next_id == old(self).next_id + k,
                self.cron_path == old(self).cron_path,
                self.jobs@.len() == old(self).jobs@.len() + k,
                forall|i: int|
                    0 <= i < old(self).jobs@.len() ==> self.jobs@[i] == old(self).jobs@[i],
                forall|j: int|
                    0 <= j < k ==> self.jobs@[old(self).jobs@.len() + j] == (CronJob {
                        id: (old(self).next_id + j) as u64,
                        entry: entries@[j],
                    }),
                ids@.len() == k,
                forall|j: int| 0 <= j < k ==> ids@[j] == old(self).next_id + j,
            decreases n - k,
        {
            let entry = rest.remove(0);
            proof {
                assert(entry == entries@[k as int]);
                assert(rest@ =~= entries@.skip(k as int + 1));
            }
            let id = self.start_job(entry);
            ids.push(id);
            k += 1;
        }
        ids
    }

    /// Empty the registry and report every identity that was registered, in
    /// order, so the caller can send each worker its cancellation signal.
    /// The signals are advisory: a worker already sleeping towards a fire
    /// observes its signal only when it wakes.
    pub fn clear(&mut self) -> (cancelled: Vec<u64>)
        requires
            old(self).wf(),
        ensures
            final(self).wf(),
            final(self).jobs@.len() == 0,
            final(self).next_id == old(self).next_id,
            final(self).cron_path == old(self).cron_path,
            cancelled@.len() == old(self).jobs@.len(),
            forall|i: int|
                0 <= i < cancelled@.len() ==> cancelled@[i] == old(self).jobs@[i].id,
    {
        let mut cancelled: Vec<u64> = Vec::new();
        let mut i: usize = 0;
        while i < self.jobs.len()
            invariant
                i <= self.jobs@.len(),
                self == old(self),
                cancelled@.len() == i,
                forall|k: int| 0 <= k < i ==> cancelled@[k] == self.jobs@[k].id,
            decreases self.jobs@.len() - i,
        {
            cancelled.push(self.jobs[i].id);
            i += 1;
        }
        self.jobs = Vec::new();
        cancelled
    }
}

} // verus!
