//! Job descriptors and the occurrence engine.
//!
//! A [`CronEntry`] pairs five field constraints with a command; the engine
//! computes the next instant at which all five hold, carrying adjustments of
//! a field into the higher-order fields (minute, hour, day, month, year) and
//! skipping candidate dates that the calendar does not contain.

use vstd::prelude::*;
use vstd::arithmetic::div_mod::lemma_fundamental_div_mod;
use vstd::arithmetic::div_mod::lemma_mod_multiples_vanish;
use vstd::arithmetic::div_mod::lemma_small_mod;

use crate::datetime::DateTime;
use crate::datetime::MAX_YEAR;
use crate::datetime::add_days;
use crate::datetime::add_one_hour;
use crate::datetime::add_one_minute;
use crate::datetime::day_index;
use crate::datetime::day_of_week;
use crate::datetime::first_of_next_month;
use crate::datetime::lemma_date_order;
use crate::datetime::lemma_time_key_bounds;
use crate::datetime::lemma_time_order;
use crate::datetime::next_day;
use crate::datetime::spec_lt;
use crate::datetime::spec_le;
use crate::datetime::spec_month_length;
use crate::datetime::month_has_day;
use crate::datetime::time_key;
use crate::datetime::weekday_of;
use crate::expr::CronExpr;
use crate::expr::CronInterval;
use crate::expr::CronUnit;

verus! {

/// A parsed crontab line: one expression per field, the command to run, and
/// whether the job fires once at startup instead of on a schedule.
#[derive(Clone, Debug)]
pub struct CronEntry {
    pub minute: CronExpr,
    pub hour: CronExpr,
    pub dom: CronExpr,
    pub month: CronExpr,
    pub dow: CronExpr,
    pub startup: bool,
    pub cmd: String,
}

impl CronEntry {
    /// Each expression is well-formed and owns the unit of its position.
    pub open spec fn wf(self) -> bool {
        &&& self.minute.wf() && self.minute.0 is Minute
        &&& self.hour.wf() && self.hour.0 is Hour
        &&& self.dom.wf() && self.dom.0 is DayOfMonth
        &&& self.month.wf() && self.month.0 is Month
        &&& self.dow.wf() && self.dow.0 is DayOfWeek
    }

    /// Does the instant satisfy all five field constraints at once?
    ///
    /// Day-of-month and day-of-week combine with AND: when both are
    /// restrictive a candidate date must satisfy both. This diverges from the
    /// POSIX cron convention, which takes their union; the divergence is
    /// deliberate and preserved.
    pub open spec fn spec_matches(self, t: DateTime) -> bool {
        &&& self.minute.spec_contains(t.minute)
        &&& self.hour.spec_contains(t.hour)
        &&& self.dom.spec_contains(t.day)
        &&& self.month.spec_contains(t.month)
        &&& self.dow.spec_contains(weekday_of(t) as u32)
    }

    /// A job that fires once at startup: all five fields are unrestricted
    /// and are never consulted.
    pub fn new_startup_task(cmd: &str) -> (r: CronEntry)
        ensures
            r.wf(),
            r.startup,
            r.cmd@ == cmd@,
            r.minute.1 is Every,
            r.hour.1 is Every,
            r.dom.1 is Every,
            r.month.1 is Every,
            r.dow.1 is Every,
    {
        CronEntry {
            minute: CronExpr(CronUnit::Minute, CronInterval::Every),
            hour: CronExpr(CronUnit::Hour, CronInterval::Every),
            dom: CronExpr(CronUnit::DayOfMonth, CronInterval::Every),
            month: CronExpr(CronUnit::Month, CronInterval::Every),
            dow: CronExpr(CronUnit::DayOfWeek, CronInterval::Every),
            startup: true,
            cmd: cmd.to_owned(),
        }
    }

    /// The next occurrence: the earliest valid instant `t` with
    /// `now <= t` that satisfies all five field constraints.
    ///
    /// Returns `None` only when no such instant exists below the supported
    /// year range's end — which happens exactly for constraint combinations
    /// the calendar can never satisfy, such as a thirty-first day of a month
    /// restricted to thirty-day months.
    #[verifier::loop_isolation(false)]
    #[verifier::rlimit(60)]
    pub fn next_execution(&self, now: &DateTime) -> (r: Option<DateTime>)
        requires
            self.wf(),
            now.valid(),
        ensures
            r matches Some(t) ==> {
                &&& t.valid()
                &&& self.spec_matches(t)
                &&& spec_le(*now, t)
                &&& no_match_in(*self, *now, t)
                &&& (t == *now || t.year < MAX_YEAR)
            },
            r is None ==> forall|u: DateTime|
                u.valid() && spec_le(*now, u) && u.year + 1 < MAX_YEAR ==> !(
                #[trigger] self.spec_matches(u)),
            // Round trip: a reference that already satisfies every field is
            // returned unchanged.
            self.spec_matches(*now) ==> r == Some(*now),
    {
        let ghost top = DateTime { year: MAX_YEAR, month: 12, day: 31, hour: 23, minute: 59 };
        let mut cur: DateTime = *now;
        loop
            invariant
                cur.valid(),
                spec_le(*now, cur),
                no_match_in(*self, *now, cur),
                cur == *now || cur.year < MAX_YEAR,
            decreases time_key(top) - time_key(cur),
        {
            proof {
                lemma_time_key_bounds(cur);
            }
            // Minute: raise it to the next allowed value; a wrap first moves
            // on by an hour. The lowest-order field, so no restart.
            if self.minute.is_multiple() && !self.minute.contains(cur.minute) {
                if cur.year + 1 >= MAX_YEAR {
                    proof {
                        lemma_cap_stop(*self, *now, cur);
                    }
                    return None;
                }
                let m = self.minute.next_from(cur.minute);
                if m < cur.minute {
                    let bumped = add_one_hour(&cur);
                    let next = DateTime { minute: m, ..bumped };
                    proof {
                        lemma_step_minute_wrap(*self, cur, bumped, next, m);
                        lemma_time_order(cur, next);
                        lemma_no_match_extend(*self, *now, cur, next);
                        lemma_time_order(*now, cur);
                        lemma_time_order(*now, next);
                        lemma_time_key_bounds(next);
                    }
                    cur = next;
                } else {
                    let next = DateTime { minute: m, ..cur };
                    proof {
                        lemma_step_minute_fwd(*self, cur, next, m);
                        lemma_time_order(cur, next);
                        lemma_no_match_extend(*self, *now, cur, next);
                        lemma_time_order(*now, cur);
                        lemma_time_order(*now, next);
                        lemma_time_key_bounds(next);
                    }
                    cur = next;
                }
            }
            // Hour: raise it to the next allowed value and reset the minute;
            // a wrap moves on to the following day. Restart.
            if self.hour.is_multiple() && !self.hour.contains(cur.hour) {
                if cur.year + 1 >= MAX_YEAR {
                    proof {
                        lemma_cap_stop(*self, *now, cur);
                    }
                    return None;
                }
                let h = self.hour.next_from(cur.hour);
                if h < cur.hour {
                    let set = DateTime { hour: h, minute: 0, ..cur };
                    let next = next_day(&set);
                    proof {
                        lemma_step_hour_wrap(*self, cur, next, h);
                        lemma_time_order(cur, next);
                        lemma_no_match_extend(*self, *now, cur, next);
                        lemma_time_order(*now, cur);
                        lemma_time_order(*now, next);
                        lemma_time_key_bounds(next);
                    }
                    cur = next;
                    continue;
                } else {
                    let next = DateTime { hour: h, minute: 0, ..cur };
                    proof {
                        lemma_step_hour_fwd(*self, cur, next, h);
                        lemma_time_order(cur, next);
                        lemma_no_match_extend(*self, *now, cur, next);
                        lemma_time_order(*now, cur);
                        lemma_time_order(*now, next);
                        lemma_time_key_bounds(next);
                    }
                    cur = next;
                    continue;
                }
            }
            // Day of week: move forward to the next allowed weekday at
            // midnight. Restart.
            if self.dow.is_multiple() {
                let w = day_of_week(&cur);
                if !self.dow.contains(w) {
                    if cur.year + 1 >= MAX_YEAR {
                        proof {
                            lemma_cap_stop(*self, *now, cur);
                        }
                        return None;
                    }
                    let nw = self.dow.next_from(w);
                    let delta = if nw > w {
                        nw - w
                    } else {
                        nw + 7 - w
                    };
                    let adv = add_days(&cur, delta);
                    let next = DateTime { hour: 0, minute: 0, ..adv };
                    proof {
                        if !(exists|x: u32| self.dow.spec_contains(x) && x > w) {
                            if exists|x: u32| (#[trigger] self.dow.1->0@.contains(x)) && x > w {
                                let x0 = choose|x: u32| (#[trigger] self.dow.1->0@.contains(x))
                                    && x > w;
                                assert(self.dow.spec_contains(x0) && x0 > w);
                            }
                            assert forall|x: u32| self.dow.spec_contains(x) implies nw <= x by {
                                assert(self.dow.1->0@.contains(x));
                            }
                        }
                        lemma_step_dow(*self, cur, next, w, nw, delta);
                        lemma_time_order(cur, next);
                        lemma_no_match_extend(*self, *now, cur, next);
                        lemma_time_order(*now, cur);
                        lemma_time_order(*now, next);
                        lemma_time_key_bounds(next);
                    }
                    cur = next;
                    continue;
                }
            }
            // Day of month: move to the next allowed day at midnight if the
            // current month still contains it, else to the first of the next
            // month. Restart.
            if self.dom.is_multiple() && !self.dom.contains(cur.day) {
                if cur.year + 1 >= MAX_YEAR {
                    proof {
                        lemma_cap_stop(*self, *now, cur);
                    }
                    return None;
                }
                let d2 = self.dom.next_from(cur.day);
                if d2 < cur.day || !month_has_day(cur.year, cur.month, d2) {
                    let next = first_of_next_month(&cur);
                    proof {
                        lemma_step_dom_skip(*self, cur, next);
                        lemma_time_order(cur, next);
                        lemma_no_match_extend(*self, *now, cur, next);
                        lemma_time_order(*now, cur);
                        lemma_time_order(*now, next);
                        lemma_time_key_bounds(next);
                    }
                    cur = next;
                    continue;
                } else {
                    let next = DateTime { day: d2, hour: 0, minute: 0, ..cur };
                    proof {
                        lemma_step_dom_fwd(*self, cur, next, d2);
                        lemma_time_order(cur, next);
                        lemma_no_match_extend(*self, *now, cur, next);
                        lemma_time_order(*now, cur);
                        lemma_time_order(*now, next);
                        lemma_time_key_bounds(next);
                    }
                    cur = next;
                    continue;
                }
            }
            // Month: move to the first of the next allowed month; a wrap
            // past December advances the year. Restart.
            if self.month.is_multiple() && !self.month.contains(cur.month) {
                if cur.year + 1 >= MAX_YEAR {
                    proof {
                        lemma_cap_stop(*self, *now, cur);
                    }
                    return None;
                }
                let m2 = self.month.next_from(cur.month);
                if m2 < cur.month {
                    let next = DateTime {
                        year: cur.year + 1,
                        month: m2,
                        day: 1,
                        hour: 0,
                        minute: 0,
                    };
                    proof {
                        lemma_step_month_wrap(*self, cur, next, m2);
                        lemma_time_order(cur, next);
                        lemma_no_match_extend(*self, *now, cur, next);
                        lemma_time_order(*now, cur);
                        lemma_time_order(*now, next);
                        lemma_time_key_bounds(next);
                    }
                    cur = next;
                    continue;
                } else {
                    let next = DateTime { year: cur.year, month: m2, day: 1, hour: 0, minute: 0 };
                    proof {
                        lemma_step_month_fwd(*self, cur, next, m2);
                        lemma_time_order(cur, next);
                        lemma_no_match_extend(*self, *now, cur, next);
                        lemma_time_order(*now, cur);
                        lemma_time_order(*now, next);
                        lemma_time_key_bounds(next);
                    }
                    cur = next;
                    continue;
                }
            }
            // A full pass found every field satisfied.
            proof {
                if self.spec_matches(*now) {
                    assert(spec_le(*now, *now));
                }
            }
            return Some(cur);
        }
    }

    /// The next occurrence strictly after `now`: the reference is first
    /// advanced past the current minute, as the operational scheduling loop
    /// does to avoid re-firing within the minute it woke in.
    pub fn next_execution_after(&self, now: &DateTime) -> (r: Option<DateTime>)
        requires
            self.wf(),
            now.valid(),
            now.year < MAX_YEAR,
        ensures
            r matches Some(t) ==> {
                &&& t.valid()
                &&& self.spec_matches(t)
                &&& spec_lt(*now, t)
                &&& forall|u: DateTime|
                    u.valid() && spec_lt(*now, u) && spec_lt(u, t) ==> !(
                    #[trigger] self.spec_matches(u))
            },
            r is None ==> forall|u: DateTime|
                u.valid() && spec_lt(*now, u) && u.year + 1 < MAX_YEAR ==> !(
                #[trigger] self.spec_matches(u)),
    {
        let bumped = add_one_minute(now);
        let r = self.next_execution(&bumped);
        proof {
            lemma_time_order(*now, bumped);
            if let Some(t) = r {
                lemma_time_order(*now, t);
                lemma_time_order(bumped, t);
                assert forall|u: DateTime|
                    u.valid() && spec_lt(*now, u) && spec_lt(u, t) implies !(
                self.spec_matches(u)) by {
                    lemma_time_order(*now, u);
                    lemma_time_order(bumped, u);
                    assert(spec_le(bumped, u));
                }
            } else {
                assert forall|u: DateTime|
                    u.valid() && spec_lt(*now, u) && u.year + 1 < MAX_YEAR implies !(
                self.spec_matches(u)) by {
                    lemma_time_order(*now, u);
                    lemma_time_order(bumped, u);
                    assert(spec_le(bumped, u));
                }
            }
        }
        r
    }
}

/// No instant from `a` (inclusive) up to `b` (exclusive) satisfies the entry.
pub open spec fn no_match_in(e: CronEntry, a: DateTime, b: DateTime) -> bool {
    forall|u: DateTime|
        u.valid() && spec_le(a, u) && spec_lt(u, b) ==> !(#[trigger] e.spec_matches(u))
}

/// At the supported year range's end no further adjustment is possible:
/// every instant strictly below the cap has been ruled out, and the
/// reference itself does not match (it equals the failing candidate or
/// precedes it).
proof fn lemma_cap_stop(e: CronEntry, now: DateTime, cur: DateTime)
    requires
        now.valid(),
        cur.valid(),
        spec_le(now, cur),
        no_match_in(e, now, cur),
        cur.year + 1 >= MAX_YEAR,
        !e.spec_matches(cur),
    ensures
        forall|u: DateTime|
            u.valid() && spec_le(now, u) && u.year + 1 < MAX_YEAR ==> !(
            #[trigger] e.spec_matches(u)),
        !e.spec_matches(now),
{
    assert forall|u: DateTime| u.valid() && spec_le(now, u) && u.year + 1 < MAX_YEAR implies !(
    e.spec_matches(u)) by {
        assert(u.year < cur.year);
        assert(spec_lt(u, cur));
    }
    if e.spec_matches(now) {
        if spec_lt(now, cur) {
            assert(!e.spec_matches(now));
        } else {
            assert(now == cur);
        }
    }
}

/// Chain two adjacent match-free ranges into one.
proof fn lemma_no_match_extend(e: CronEntry, a: DateTime, cur: DateTime, next: DateTime)
    requires
        a.valid(),
        cur.valid(),
        next.valid(),
        spec_le(a, cur),
        no_match_in(e, a, cur),
        no_match_in(e, cur, next),
    ensures
        no_match_in(e, a, next),
{
    assert forall|u: DateTime| u.valid() && spec_le(a, u) && spec_lt(u, next) implies !(
    e.spec_matches(u)) by {
        lemma_time_order(u, cur);
        if spec_lt(u, cur) {
            assert(!e.spec_matches(u));
        } else {
            assert(spec_le(cur, u));
            assert(!e.spec_matches(u));
        }
    }
}

/// Minute adjustment without wrap: between the instant and the same instant
/// with its minute raised to the next constrained value, no minute satisfies
/// the minute field.
proof fn lemma_step_minute_fwd(e: CronEntry, cur: DateTime, next: DateTime, m: u32)
    requires
        cur.valid(),
        next.valid(),
        !e.minute.spec_contains(cur.minute),
        forall|x: u32| e.minute.spec_contains(x) && x > cur.minute ==> m <= x,
        cur.minute < m,
        next == (DateTime { minute: m, ..cur }),
    ensures
        no_match_in(e, cur, next),
        spec_lt(cur, next),
{
    assert forall|u: DateTime| u.valid() && spec_le(cur, u) && spec_lt(u, next) implies !(
    e.spec_matches(u)) by {
        assert(u.year == cur.year && u.month == cur.month && u.day == cur.day && u.hour
            == cur.hour);
        assert(cur.minute <= u.minute < m);
        assert(!e.minute.spec_contains(u.minute));
    }
}

/// Minute adjustment with wrap: no minute later in the current hour is
/// allowed, and none before the target minute of the following hour.
proof fn lemma_step_minute_wrap(
    e: CronEntry,
    cur: DateTime,
    bumped: DateTime,
    next: DateTime,
    m: u32,
)
    requires
        cur.valid(),
        bumped.valid(),
        next.valid(),
        !e.minute.spec_contains(cur.minute),
        // wrap: nothing above the current minute is allowed
        forall|x: u32| e.minute.spec_contains(x) ==> !(x > cur.minute),
        // the target is the least allowed minute overall
        forall|x: u32| e.minute.spec_contains(x) ==> m <= x,
        m < 60,
        bumped.minute == cur.minute,
        time_key(bumped) == time_key(cur) + 60,
        next == (DateTime { minute: m, ..bumped }),
    ensures
        no_match_in(e, cur, next),
        spec_lt(cur, next),
{
    lemma_time_order(cur, bumped);
    lemma_time_order(cur, next);
    assert(time_key(next) == time_key(cur) + 60 - bumped.minute + m);
    assert(spec_lt(cur, next));
    assert forall|u: DateTime| u.valid() && spec_le(cur, u) && spec_lt(u, next) implies !(
    e.spec_matches(u)) by {
        lemma_date_order(u, cur);
        lemma_date_order(u, bumped);
        lemma_date_order(cur, bumped);
        if u.year == cur.year && u.month == cur.month && u.day == cur.day && u.hour == cur.hour {
            assert(cur.minute <= u.minute);
            assert(!e.minute.spec_contains(u.minute));
        } else {
            // u lies in the hour that follows, before the target minute
            assert(day_index(u) == day_index(bumped) && u.hour == bumped.hour);
            assert(u.minute < m);
            assert(!e.minute.spec_contains(u.minute));
        }
    }
}

/// Hour adjustment without wrap: the hours from the current one up to the
/// next allowed hour all fail the hour field.
proof fn lemma_step_hour_fwd(e: CronEntry, cur: DateTime, next: DateTime, h: u32)
    requires
        cur.valid(),
        next.valid(),
        !e.hour.spec_contains(cur.hour),
        forall|x: u32| e.hour.spec_contains(x) && x > cur.hour ==> h <= x,
        cur.hour < h,
        next == (DateTime { hour: h, minute: 0, ..cur }),
    ensures
        no_match_in(e, cur, next),
        spec_lt(cur, next),
{
    assert forall|u: DateTime| u.valid() && spec_le(cur, u) && spec_lt(u, next) implies !(
    e.spec_matches(u)) by {
        assert(u.year == cur.year && u.month == cur.month && u.day == cur.day);
        assert(cur.hour <= u.hour < h);
        assert(!e.hour.spec_contains(u.hour));
    }
}

/// Hour adjustment with wrap: the rest of the day has no allowed hour, and
/// the following day none before the target hour.
proof fn lemma_step_hour_wrap(e: CronEntry, cur: DateTime, next: DateTime, h: u32)
    requires
        cur.valid(),
        next.valid(),
        !e.hour.spec_contains(cur.hour),
        forall|x: u32| e.hour.spec_contains(x) ==> !(x > cur.hour),
        forall|x: u32| e.hour.spec_contains(x) ==> h <= x,
        next.hour == h,
        next.minute == 0,
        day_index(next) == day_index(cur) + 1,
    ensures
        no_match_in(e, cur, next),
        spec_lt(cur, next),
{
    lemma_date_order(cur, next);
    assert(spec_lt(cur, next));
    assert forall|u: DateTime| u.valid() && spec_le(cur, u) && spec_lt(u, next) implies !(
    e.spec_matches(u)) by {
        lemma_date_order(u, cur);
        lemma_date_order(u, next);
        if day_index(u) == day_index(cur) {
            assert(cur.hour <= u.hour);
            assert(!e.hour.spec_contains(u.hour));
        } else {
            assert(day_index(u) == day_index(next));
            assert(u.hour <= next.hour);
            if u.hour == next.hour {
                assert(u.minute < next.minute);
                assert(false);
            }
            assert(!e.hour.spec_contains(u.hour));
        }
    }
}

/// Day-of-week adjustment: the remainder of the current day has the wrong
/// weekday, and each date before the next allowed weekday fails as well.
proof fn lemma_step_dow(
    e: CronEntry,
    cur: DateTime,
    next: DateTime,
    w: u32,
    nw: u32,
    delta: u32,
)
    requires
        cur.valid(),
        next.valid(),
        w == weekday_of(cur),
        !e.dow.spec_contains(w),
        e.dow.spec_contains(nw),
        nw < 7,
        forall|x: u32| e.dow.spec_contains(x) && x > w ==> nw <= x,
        (exists|x: u32| e.dow.spec_contains(x) && x > w) ==> nw > w,
        !(exists|x: u32| e.dow.spec_contains(x) && x > w) ==> forall|x: u32|
            e.dow.spec_contains(x) ==> nw <= x,
        delta == (if nw > w {
            (nw - w) as u32
        } else {
            (nw + 7 - w) as u32
        }),
        day_index(next) == day_index(cur) + delta,
        next.hour == 0,
        next.minute == 0,
    ensures
        no_match_in(e, cur, next),
        spec_lt(cur, next),
{
    crate::datetime::lemma_day_index_range(cur);
    assert(w < 7);
    assert(nw != w);
    assert(1 <= delta <= 6);
    lemma_date_order(cur, next);
    assert(spec_lt(cur, next));
    lemma_fundamental_div_mod(day_index(cur) + 4, 7);
    let q = (day_index(cur) + 4) / 7;
    assert forall|u: DateTime| u.valid() && spec_le(cur, u) && spec_lt(u, next) implies !(
    e.spec_matches(u)) by {
        lemma_date_order(u, cur);
        lemma_date_order(u, next);
        let k = day_index(u) - day_index(cur);
        assert(0 <= k < delta);
        assert(day_index(u) + 4 == 7 * q + (w + k));
        lemma_mod_multiples_vanish(q, w + k, 7);
        assert(weekday_of(u) == (w + k) % 7);
        if w + k < 7 {
            lemma_small_mod((w + k) as nat, 7);
            assert(weekday_of(u) == w + k);
            if k == 0 {
                assert(!e.dow.spec_contains((w + k) as u32));
            } else {
                // a weekday strictly between the current and the next allowed
                if nw > w {
                    assert(w + k < nw);
                    assert(!e.dow.spec_contains((w + k) as u32));
                } else {
                    assert(!e.dow.spec_contains((w + k) as u32));
                }
            }
        } else {
            // wrapped past Saturday into the next week
            lemma_mod_multiples_vanish(-1, w + k, 7);
            lemma_small_mod((w + k - 7) as nat, 7);
            assert(weekday_of(u) == w + k - 7);
            assert(nw < w);
            assert(w + k - 7 < nw);
            assert(!e.dow.spec_contains((w + k - 7) as u32));
        }
        assert(!e.dow.spec_contains(weekday_of(u) as u32));
    }
}

/// Day-of-month adjustment within the month: the days from the current one
/// up to the next allowed day all fail the day-of-month field.
proof fn lemma_step_dom_fwd(e: CronEntry, cur: DateTime, next: DateTime, d2: u32)
    requires
        cur.valid(),
        next.valid(),
        !e.dom.spec_contains(cur.day),
        forall|x: u32| e.dom.spec_contains(x) && x > cur.day ==> d2 <= x,
        cur.day < d2,
        next == (DateTime { day: d2, hour: 0, minute: 0, ..cur }),
    ensures
        no_match_in(e, cur, next),
        spec_lt(cur, next),
{
    assert forall|u: DateTime| u.valid() && spec_le(cur, u) && spec_lt(u, next) implies !(
    e.spec_matches(u)) by {
        assert(u.year == cur.year && u.month == cur.month);
        assert(cur.day <= u.day < d2);
        assert(!e.dom.spec_contains(u.day));
    }
}

/// Day-of-month adjustment that leaves the month: no remaining day of the
/// current month is allowed, so the range up to the first of the next month
/// is match-free.
proof fn lemma_step_dom_skip(e: CronEntry, cur: DateTime, next: DateTime)
    requires
        cur.valid(),
        next.valid(),
        !e.dom.spec_contains(cur.day),
        forall|x: u32|
            e.dom.spec_contains(x) && x > cur.day ==> x > spec_month_length(cur.year, cur.month),
        next.day == 1,
        next.hour == 0,
        next.minute == 0,
        cur.month < 12 ==> next.year == cur.year && next.month == cur.month + 1,
        cur.month == 12 ==> next.year == cur.year + 1 && next.month == 1,
    ensures
        no_match_in(e, cur, next),
        spec_lt(cur, next),
{
    assert forall|u: DateTime| u.valid() && spec_le(cur, u) && spec_lt(u, next) implies !(
    e.spec_matches(u)) by {
        assert(u.year == cur.year && u.month == cur.month);
        assert(cur.day <= u.day);
        assert(u.day <= spec_month_length(cur.year, cur.month));
        assert(!e.dom.spec_contains(u.day));
    }
}

/// Month adjustment within the year: the months from the current one up to
/// the next allowed month all fail the month field.
proof fn lemma_step_month_fwd(e: CronEntry, cur: DateTime, next: DateTime, m2: u32)
    requires
        cur.valid(),
        next.valid(),
        !e.month.spec_contains(cur.month),
        forall|x: u32| e.month.spec_contains(x) && x > cur.month ==> m2 <= x,
        cur.month < m2 <= 12,
        next == (DateTime { year: cur.year, month: m2, day: 1, hour: 0, minute: 0 }),
    ensures
        no_match_in(e, cur, next),
        spec_lt(cur, next),
{
    assert forall|u: DateTime| u.valid() && spec_le(cur, u) && spec_lt(u, next) implies !(
    e.spec_matches(u)) by {
        assert(u.year == cur.year);
        assert(cur.month <= u.month < m2);
        assert(!e.month.spec_contains(u.month));
    }
}

/// Month adjustment that wraps past December: the rest of this year has no
/// allowed month, and the next year none before the target month.
proof fn lemma_step_month_wrap(e: CronEntry, cur: DateTime, next: DateTime, m2: u32)
    requires
        cur.valid(),
        next.valid(),
        !e.month.spec_contains(cur.month),
        forall|x: u32| e.month.spec_contains(x) ==> !(x > cur.month),
        forall|x: u32| e.month.spec_contains(x) ==> m2 <= x,
        1 <= m2,
        next == (DateTime {
            year: (cur.year + 1) as u32,
            month: m2,
            day: 1,
            hour: 0,
            minute: 0,
        }),
    ensures
        no_match_in(e, cur, next),
        spec_lt(cur, next),
{
    assert forall|u: DateTime| u.valid() && spec_le(cur, u) && spec_lt(u, next) implies !(
    e.spec_matches(u)) by {
        if u.year == cur.year {
            assert(cur.month <= u.month);
            assert(!e.month.spec_contains(u.month));
        } else {
            assert(u.year == cur.year + 1);
            assert(u.month < m2);
            assert(!e.month.spec_contains(u.month));
        }
    }
}

} // verus!
