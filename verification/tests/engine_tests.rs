use crust::datetime::{
    add_days, add_one_hour, add_one_minute, day_of_week, first_of_next_month, is_leap_year,
    month_has_day, month_length, next_day, DateTime,
};
use crust::entry::CronEntry;
use crust::expr::{CronExpr, CronInterval, CronUnit};

fn dt(year: u32, month: u32, day: u32, hour: u32, minute: u32) -> DateTime {
    DateTime::new(year, month, day, hour, minute).expect("valid date")
}

fn entry(
    minute: CronInterval,
    hour: CronInterval,
    dom: CronInterval,
    month: CronInterval,
    dow: CronInterval,
) -> CronEntry {
    CronEntry {
        minute: CronExpr(CronUnit::Minute, minute),
        hour: CronExpr(CronUnit::Hour, hour),
        dom: CronExpr(CronUnit::DayOfMonth, dom),
        month: CronExpr(CronUnit::Month, month),
        dow: CronExpr(CronUnit::DayOfWeek, dow),
        startup: false,
        cmd: String::from("echo test"),
    }
}

fn some(v: &[u32]) -> CronInterval {
    CronInterval::Multiple(v.to_vec())
}

#[test]
fn calendar_month_lengths() {
    assert_eq!(month_length(2023, 1), 31);
    assert_eq!(month_length(2023, 4), 30);
    assert_eq!(month_length(2023, 2), 28);
    assert_eq!(month_length(2024, 2), 29);
    assert_eq!(month_length(2000, 2), 29);
    assert_eq!(month_length(2100, 2), 28);
    assert!(is_leap_year(2024));
    assert!(is_leap_year(2000));
    assert!(!is_leap_year(2023));
    assert!(!is_leap_year(2100));
    assert!(month_has_day(2024, 2, 29));
    assert!(!month_has_day(2023, 2, 29));
}

#[test]
fn datetime_construction() {
    assert!(DateTime::new(2023, 2, 29, 0, 0).is_none());
    assert!(DateTime::new(2024, 2, 29, 0, 0).is_some());
    assert!(DateTime::new(2023, 13, 1, 0, 0).is_none());
    assert!(DateTime::new(2023, 0, 1, 0, 0).is_none());
    assert!(DateTime::new(2023, 4, 31, 0, 0).is_none());
    assert!(DateTime::new(2023, 1, 1, 24, 0).is_none());
    assert!(DateTime::new(2023, 1, 1, 0, 60).is_none());
    assert!(DateTime::new(1969, 1, 1, 0, 0).is_none());
}

#[test]
fn weekday_anchors() {
    // 1970-01-01 was a Thursday; Sunday is zero.
    assert_eq!(day_of_week(&dt(1970, 1, 1, 0, 0)), 4);
    // 2023-01-01 was a Sunday, so the second was a Monday.
    assert_eq!(day_of_week(&dt(2023, 1, 1, 0, 0)), 0);
    assert_eq!(day_of_week(&dt(2023, 1, 2, 0, 0)), 1);
    assert_eq!(day_of_week(&dt(2023, 1, 6, 0, 0)), 5);
    // 2024-02-29 was a Thursday.
    assert_eq!(day_of_week(&dt(2024, 2, 29, 0, 0)), 4);
}

#[test]
fn calendar_successors() {
    assert_eq!(next_day(&dt(2023, 1, 31, 7, 5)), dt(2023, 2, 1, 7, 5));
    assert_eq!(next_day(&dt(2023, 12, 31, 0, 0)), dt(2024, 1, 1, 0, 0));
    assert_eq!(next_day(&dt(2024, 2, 28, 0, 0)), dt(2024, 2, 29, 0, 0));
    assert_eq!(next_day(&dt(2023, 2, 28, 0, 0)), dt(2023, 3, 1, 0, 0));
    assert_eq!(add_days(&dt(2023, 12, 30, 3, 4), 5), dt(2024, 1, 4, 3, 4));
    assert_eq!(add_one_hour(&dt(2023, 6, 30, 23, 45)), dt(2023, 7, 1, 0, 45));
    assert_eq!(add_one_minute(&dt(2023, 12, 31, 23, 59)), dt(2024, 1, 1, 0, 0));
    assert_eq!(first_of_next_month(&dt(2023, 12, 15, 9, 30)), dt(2024, 1, 1, 0, 0));
    assert_eq!(first_of_next_month(&dt(2023, 4, 15, 9, 30)), dt(2023, 5, 1, 0, 0));
}

// Leap-year boundary: a job for 00:00 on February 29th, asked from early
// 2023, skips the non-leap year entirely.
#[test]
fn leap_year_boundary() {
    let e = entry(
        some(&[0]),
        some(&[0]),
        some(&[29]),
        some(&[2]),
        CronInterval::Every,
    );
    let r = e.next_execution(&dt(2023, 2, 1, 0, 0));
    assert_eq!(r, Some(dt(2024, 2, 29, 0, 0)));
}

// Month-length boundary: a job for the 31st, asked mid-April, skips April.
#[test]
fn month_length_boundary() {
    let e = entry(
        CronInterval::Every,
        CronInterval::Every,
        some(&[31]),
        CronInterval::Every,
        CronInterval::Every,
    );
    let r = e.next_execution(&dt(2023, 4, 15, 0, 0));
    assert_eq!(r, Some(dt(2023, 5, 31, 0, 0)));
}

// Day-of-month and day-of-week combine with AND: the candidate date must be
// the first of a month AND a Monday. This deliberately diverges from the
// POSIX convention of taking their union.
#[test]
fn dom_and_dow_combine_with_and() {
    let e = entry(
        some(&[0]),
        some(&[0]),
        some(&[1]),
        CronInterval::Every,
        some(&[1]),
    );
    // 2023-05-01 was a Monday.
    assert_eq!(e.next_execution(&dt(2023, 4, 15, 0, 0)), Some(dt(2023, 5, 1, 0, 0)));
    // After it, the next first-of-month Monday is 2024-01-01.
    assert_eq!(e.next_execution(&dt(2023, 5, 2, 0, 0)), Some(dt(2024, 1, 1, 0, 0)));
}

// The workday schedule `*/15 9-17 * * 1-5`.
fn workday_entry() -> CronEntry {
    entry(
        some(&[0, 15, 30, 45]),
        some(&[9, 10, 11, 12, 13, 14, 15, 16, 17]),
        CronInterval::Every,
        CronInterval::Every,
        some(&[1, 2, 3, 4, 5]),
    )
}

#[test]
fn workday_scenario_monday_morning() {
    // Monday 09:07 fires next at Monday 09:15.
    let e = workday_entry();
    assert_eq!(e.next_execution(&dt(2023, 1, 2, 9, 7)), Some(dt(2023, 1, 2, 9, 15)));
}

#[test]
fn workday_scenario_friday_evening() {
    // Friday 17:46 fires next on the following Monday at 09:00.
    let e = workday_entry();
    assert_eq!(e.next_execution(&dt(2023, 1, 6, 17, 46)), Some(dt(2023, 1, 9, 9, 0)));
}

// Round trip: once the engine names an occurrence, re-running it from that
// occurrence returns it unchanged, and the operational advance-past-the-
// minute mode returns one strictly later.
#[test]
fn round_trip() {
    let e = workday_entry();
    let t = e
        .next_execution_after(&dt(2023, 1, 6, 17, 46))
        .expect("an occurrence is due");
    assert_eq!(t, dt(2023, 1, 9, 9, 0));
    assert_eq!(e.next_execution(&t), Some(t));
    let after = e.next_execution_after(&t).expect("an occurrence is due");
    assert_eq!(after, dt(2023, 1, 9, 9, 15));
    assert!(t != after);
}

// A reference that already satisfies every field is returned unchanged.
#[test]
fn satisfied_reference_is_fixed_point() {
    let e = workday_entry();
    let t = dt(2023, 1, 4, 12, 30);
    assert_eq!(e.next_execution(&t), Some(t));
}

// The 31st of a 30-day-only month never exists, so no occurrence is due.
#[test]
fn impossible_schedule_has_no_occurrence() {
    let e = entry(
        some(&[0]),
        some(&[0]),
        some(&[31]),
        some(&[4, 6, 9, 11]),
        CronInterval::Every,
    );
    assert_eq!(e.next_execution(&dt(2023, 1, 1, 0, 0)), None);
}

#[test]
fn startup_task_fields() {
    let e = CronEntry::new_startup_task("echo boot");
    assert!(e.startup);
    assert_eq!(e.cmd, "echo boot");
    assert!(e.minute.is_every());
    assert!(e.hour.is_every());
    assert!(e.dom.is_every());
    assert!(e.month.is_every());
    assert!(e.dow.is_every());
}

// Minute wrap carries into the hour; hour wrap carries into the day.
#[test]
fn carry_propagation() {
    let e = entry(
        some(&[5]),
        CronInterval::Every,
        CronInterval::Every,
        CronInterval::Every,
        CronInterval::Every,
    );
    assert_eq!(e.next_execution(&dt(2023, 3, 10, 14, 30)), Some(dt(2023, 3, 10, 15, 5)));

    let e = entry(
        CronInterval::Every,
        some(&[8]),
        CronInterval::Every,
        CronInterval::Every,
        CronInterval::Every,
    );
    assert_eq!(e.next_execution(&dt(2023, 3, 10, 9, 30)), Some(dt(2023, 3, 11, 8, 0)));

    // December 31st late evening rolls into the new year.
    let e = entry(
        some(&[0]),
        some(&[0]),
        CronInterval::Every,
        CronInterval::Every,
        CronInterval::Every,
    );
    assert_eq!(e.next_execution(&dt(2023, 12, 31, 23, 30)), Some(dt(2024, 1, 1, 0, 0)));

    // A minute wrap at the end of a month's last hour carries into the day
    // and the month at once.
    let e = entry(
        some(&[0]),
        CronInterval::Every,
        CronInterval::Every,
        CronInterval::Every,
        CronInterval::Every,
    );
    assert_eq!(e.next_execution(&dt(2023, 1, 31, 23, 30)), Some(dt(2023, 2, 1, 0, 0)));
}

// Adjusting a higher-order field resets the lower ones, which are then
// re-raised to their own constraints on the restarted pass.
#[test]
fn restart_re_raises_lower_fields() {
    // 09:00 on Mondays, asked on a Tuesday afternoon.
    let e = entry(
        some(&[0]),
        some(&[9]),
        CronInterval::Every,
        CronInterval::Every,
        some(&[1]),
    );
    // 2023-01-03 was a Tuesday; the next Monday is the 9th.
    assert_eq!(e.next_execution(&dt(2023, 1, 3, 14, 20)), Some(dt(2023, 1, 9, 9, 0)));

    // A day already past this month wraps to the next month's occurrence.
    let e = entry(
        some(&[30]),
        some(&[12]),
        some(&[5]),
        CronInterval::Every,
        CronInterval::Every,
    );
    assert_eq!(e.next_execution(&dt(2023, 3, 10, 8, 0)), Some(dt(2023, 4, 5, 12, 30)));

    // A month already past this year wraps into the next year.
    let e = entry(
        CronInterval::Every,
        CronInterval::Every,
        CronInterval::Every,
        some(&[3]),
        CronInterval::Every,
    );
    assert_eq!(e.next_execution(&dt(2023, 6, 15, 10, 30)), Some(dt(2024, 3, 1, 0, 0)));
}
