use crust::datetime::DateTime;
use crust::entry::CronEntry;
use crust::expr::{CronExpr, CronInterval, CronUnit};
use crust::schedule::{worker_after_wake, worker_begin, CronScheduler, WorkerCommand};

fn daily_entry(cmd: &str) -> CronEntry {
    CronEntry {
        minute: CronExpr(CronUnit::Minute, CronInterval::Multiple(vec![0])),
        hour: CronExpr(CronUnit::Hour, CronInterval::Multiple(vec![0])),
        dom: CronExpr(CronUnit::DayOfMonth, CronInterval::Every),
        month: CronExpr(CronUnit::Month, CronInterval::Every),
        dow: CronExpr(CronUnit::DayOfWeek, CronInterval::Every),
        startup: false,
        cmd: String::from(cmd),
    }
}

#[test]
fn registry_assigns_distinct_ids() {
    let mut s = CronScheduler::new(String::from("/tmp/crontab"));
    // two jobs with the same command string do not collide
    let a = s.start_job(daily_entry("echo same"));
    let b = s.start_job(daily_entry("echo same"));
    assert_ne!(a, b);
    assert_eq!(s.jobs.len(), 2);
    assert_eq!(s.jobs[0].id(), a);
    assert_eq!(s.jobs[1].id(), b);
}

// Cancellation: a job that was started and then cleared is among the
// identities the clear reports, the registry is emptied, and a worker that
// observes the pending signal does not run. A worker already sleeping
// towards a fire only sees the signal when it wakes, so the fire in flight
// may still complete — only the next one is prevented.
#[test]
fn clear_cancels_started_jobs() {
    let mut s = CronScheduler::new(String::from("/tmp/crontab"));
    let id = s.start_job(daily_entry("echo cancel me"));
    let cancelled = s.clear();
    assert!(cancelled.contains(&id));
    assert_eq!(s.jobs.len(), 0);
    // the signalled worker's wake decision is: do not run
    assert!(!worker_after_wake(true));
    assert!(worker_after_wake(false));
}

#[test]
fn load_registers_in_input_order() {
    let mut s = CronScheduler::new(String::from("crontab"));
    let ids = s.load(vec![daily_entry("echo a"), daily_entry("echo b"), daily_entry("echo c")]);
    assert_eq!(ids, vec![0, 1, 2]);
    assert_eq!(s.jobs.len(), 3);
    assert_eq!(s.jobs[0].entry.cmd, "echo a");
    assert_eq!(s.jobs[1].entry.cmd, "echo b");
    assert_eq!(s.jobs[2].entry.cmd, "echo c");
    assert_eq!(s.next_id, 3);
    // loading after an earlier start keeps identities fresh
    let extra = s.start_job(daily_entry("echo d"));
    assert_eq!(extra, 3);
}

#[test]
fn clear_reports_all_ids_in_order() {
    let mut s = CronScheduler::new(String::from("crontab"));
    let a = s.start_job(daily_entry("echo a"));
    let b = s.start_job(daily_entry("echo b"));
    let c = s.start_job(daily_entry("echo c"));
    assert_eq!(s.clear(), vec![a, b, c]);
    assert_eq!(s.jobs.len(), 0);
    // identities stay fresh across a clear
    let d = s.start_job(daily_entry("echo d"));
    assert_ne!(d, a);
    assert_ne!(d, b);
    assert_ne!(d, c);
}

#[test]
fn worker_cycle_decisions() {
    let now = DateTime::new(2023, 1, 2, 9, 7).unwrap();

    // a startup job runs once and stops without consulting the schedule
    let boot = CronEntry::new_startup_task("echo boot");
    assert!(matches!(worker_begin(&boot, &now), WorkerCommand::RunThenTerminate));

    // a recurring job sleeps until its next occurrence strictly after now
    let e = daily_entry("echo daily");
    match worker_begin(&e, &now) {
        WorkerCommand::SleepUntil(t) => {
            assert_eq!(t, DateTime::new(2023, 1, 3, 0, 0).unwrap());
        }
        other => panic!("expected a sleep command, got {:?}", other),
    }

    // waking exactly at an occurrence still schedules the next one, not the
    // minute the worker woke in
    let at = DateTime::new(2023, 1, 3, 0, 0).unwrap();
    match worker_begin(&e, &at) {
        WorkerCommand::SleepUntil(t) => {
            assert_eq!(t, DateTime::new(2023, 1, 4, 0, 0).unwrap());
        }
        other => panic!("expected a sleep command, got {:?}", other),
    }
}

#[test]
fn worker_terminates_on_impossible_schedule() {
    let e = CronEntry {
        minute: CronExpr(CronUnit::Minute, CronInterval::Multiple(vec![0])),
        hour: CronExpr(CronUnit::Hour, CronInterval::Multiple(vec![0])),
        dom: CronExpr(CronUnit::DayOfMonth, CronInterval::Multiple(vec![31])),
        month: CronExpr(CronUnit::Month, CronInterval::Multiple(vec![2])),
        dow: CronExpr(CronUnit::DayOfWeek, CronInterval::Every),
        startup: false,
        cmd: String::from("echo never"),
    };
    let now = DateTime::new(2023, 1, 2, 9, 7).unwrap();
    assert!(matches!(worker_begin(&e, &now), WorkerCommand::Terminate));
}
