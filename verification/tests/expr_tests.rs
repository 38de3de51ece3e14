use crust::expr::{CronExpr, CronInterval, CronUnit};

#[test]
fn contains() {
    let v = vec![5, 15, 20];
    let ce = CronExpr(CronUnit::Minute, CronInterval::Multiple(v));
    assert!(ce.contains(5));
    assert!(ce.contains(15));
    assert!(ce.contains(20));
    assert!(!ce.contains(4));
    assert!(!ce.contains(98));
    assert!(!ce.contains(21));
}

#[test]
fn next_from() {
    let v = vec![5, 15, 20];
    let ce = CronExpr(CronUnit::Minute, CronInterval::Multiple(v));
    assert_eq!(ce.next_from(5), 15);
    assert_eq!(ce.next_from(14), 15);
    assert_eq!(ce.next_from(25), 5);
    assert_eq!(ce.next_from(65), 5);

    let ce = CronExpr(CronUnit::Minute, CronInterval::Every);
    assert_eq!(ce.next_from(5), 6);
    assert_eq!(ce.next_from(0), 1);
    assert_eq!(ce.next_from(59), 0);

    let ce = CronExpr(CronUnit::Month, CronInterval::Every);
    assert_eq!(ce.next_from(5), 6);
    assert_eq!(ce.next_from(1), 2);
    assert_eq!(ce.next_from(12), 1);
}

// The smallest member greater than the probe is chosen, and the probe itself
// is never returned even when it is a member.
#[test]
fn next_from_explicit_set_laws() {
    let ce = CronExpr(CronUnit::Hour, CronInterval::Multiple(vec![0, 9, 17]));
    assert_eq!(ce.next_from(0), 9);
    assert_eq!(ce.next_from(8), 9);
    assert_eq!(ce.next_from(9), 17);
    assert_eq!(ce.next_from(16), 17);
    // wrap-around: nothing greater, so the smallest member overall
    assert_eq!(ce.next_from(17), 0);
    assert_eq!(ce.next_from(23), 0);
}

// For an unrestricted field the step is plus one, wrapping from the unit's
// maximum to its minimum — one-indexed units wrap to one, not zero.
#[test]
fn next_from_every_wraps_to_unit_min() {
    let dom = CronExpr(CronUnit::DayOfMonth, CronInterval::Every);
    assert_eq!(dom.next_from(30), 31);
    assert_eq!(dom.next_from(31), 1);
    let dow = CronExpr(CronUnit::DayOfWeek, CronInterval::Every);
    assert_eq!(dow.next_from(5), 6);
    assert_eq!(dow.next_from(6), 0);
    let hour = CronExpr(CronUnit::Hour, CronInterval::Every);
    assert_eq!(hour.next_from(22), 23);
    assert_eq!(hour.next_from(23), 0);
}

#[test]
fn unit_bounds() {
    assert_eq!(CronUnit::Minute.bounds(), (0, 59));
    assert_eq!(CronUnit::Hour.bounds(), (0, 23));
    assert_eq!(CronUnit::DayOfMonth.bounds(), (1, 31));
    assert_eq!(CronUnit::Month.bounds(), (1, 12));
    assert_eq!(CronUnit::DayOfWeek.bounds(), (0, 6));
    assert_eq!(CronUnit::Minute.min(), 0);
    assert_eq!(CronUnit::Minute.max(), 59);
}

#[test]
fn every_and_multiple_flags() {
    let e = CronExpr(CronUnit::Minute, CronInterval::Every);
    assert!(e.is_every());
    assert!(!e.is_multiple());
    let m = CronExpr(CronUnit::Minute, CronInterval::Multiple(vec![1]));
    assert!(!m.is_every());
    assert!(m.is_multiple());
    assert!(e.contains(98));
}
