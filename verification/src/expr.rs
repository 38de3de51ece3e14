//! The per-field constraint model: time units, intervals, and expressions.

use vstd::prelude::*;

verus! {

/// One of the five time fields a cron expression constrains.
#[derive(Clone, Debug)]
pub enum CronUnit {
    Minute,
    Hour,
    DayOfMonth,
    Month,
    DayOfWeek,
}

/// The constraint on one field: every value, or an explicit set of values.
///
/// An explicit set is built by the parser as a non-empty, strictly ascending,
/// deduplicated vector whose elements lie within the owning unit's bounds;
/// see [`CronExpr::wf`].
#[derive(Clone, Debug, PartialEq, Eq)]
pub enum CronInterval {
    Every,
    Multiple(Vec<u32>),
}

/// A unit paired with the interval constraining it.
#[derive(Clone, Debug)]
pub struct CronExpr(pub CronUnit, pub CronInterval);

impl CronUnit {
    /// The largest value the field can take.
    pub open spec fn spec_max(self) -> u32 {
        match self {
            CronUnit::Minute => 59,
            CronUnit::Hour => 23,
            CronUnit::DayOfMonth => 31,
            CronUnit::Month => 12,
            CronUnit::DayOfWeek => 6,
        }
    }

    /// The smallest value the field can take.
    pub open spec fn spec_min(self) -> u32 {
        match self {
            CronUnit::Minute => 0,
            CronUnit::Hour => 0,
            CronUnit::DayOfMonth => 1,
            CronUnit::Month => 1,
            CronUnit::DayOfWeek => 0,
        }
    }

    pub fn max(&self) -> (r: u32)
        ensures
            r == self.spec_max(),
    {
        match self {
            CronUnit::Minute => 59,
            CronUnit::Hour => 23,
            CronUnit::DayOfMonth => 31,
            CronUnit::Month => 12,
            CronUnit::DayOfWeek => 6,
        }
    }

    pub fn min(&self) -> (r: u32)
        ensures
            r == self.spec_min(),
    {
        match self {
            CronUnit::Minute => 0,
            CronUnit::Hour => 0,
            CronUnit::DayOfMonth => 1,
            CronUnit::Month => 1,
            CronUnit::DayOfWeek => 0,
        }
    }

    pub fn bounds(&self) -> (r: (u32, u32))
        ensures
            r.0 == self.spec_min(),
            r.1 == self.spec_max(),
    {
        (self.min(), self.max())
    }
}

impl CronExpr {
    /// Does the value satisfy this expression's constraint?
    pub open spec fn spec_contains(self, v: u32) -> bool {
        match self.1 {
            CronInterval::Every => true,
            CronInterval::Multiple(vs) => vs@.contains(v),
        }
    }

    /// Well-formedness: an explicit value set is non-empty, strictly
    /// ascending, and within the unit's bounds. Established by the parser,
    /// relied on (never re-checked) by the occurrence engine.
    pub open spec fn wf(self) -> bool {
        match self.1 {
            CronInterval::Every => true,
            CronInterval::Multiple(vs) => {
                &&& vs@.len() > 0
                &&& forall|i: int, j: int| 0 <= i < j < vs@.len() ==> vs@[i] < vs@[j]
                &&& forall|i: int|
                    0 <= i < vs@.len() ==> self.0.spec_min() <= #[trigger] vs@[i]
                        <= self.0.spec_max()
            },
        }
    }

    #[verifier::loop_isolation(false)]
    pub fn contains(&self, now: u32) -> (r: bool)
        ensures
            r == self.spec_contains(now),
    {
        match &self.1 {
            CronInterval::Every => true,
            CronInterval::Multiple(v) => {
                let mut i: usize = 0;
                while i < v.len()
                    invariant
                        i <= v@.len(),
                        forall|k: int| 0 <= k < i ==> v@[k] != now,
                    decreases v@.len() - i,
                {
                    if v[i] == now {
                        return true;
                    }
                    i += 1;
                }
                false
            },
        }
    }

    /// The smallest value of this expression's domain strictly greater than
    /// `now`, wrapping around to the smallest domain value when none exists.
    ///
    /// For an explicit set the postcondition states exactly that: the result
    /// is in the set; it exceeds `now` whenever some member does, and is then
    /// the least such member; otherwise it is the least member overall. For
    /// `Every` the result steps to `now + 1`, wrapping from the unit's
    /// maximum to its minimum.
    #[verifier::loop_isolation(false)]
    #[verifier::rlimit(30)]
    pub fn next_from(&self, now: u32) -> (r: u32)
        requires
            self.wf(),
        ensures
            self.0.spec_min() <= r <= self.0.spec_max(),
            self.1 is Every ==> {
                &&& self.0.spec_min() <= r <= self.0.spec_max()
                &&& r == (if now < self.0.spec_max() {
                    (now + 1) as u32
                } else {
                    self.0.spec_min()
                })
            },
            self.1 matches CronInterval::Multiple(vs) ==> {
                &&& vs@.contains(r)
                &&& (forall|x: u32| vs@.contains(x) && x > now ==> r <= x)
                &&& ((exists|x: u32| vs@.contains(x) && x > now) ==> r > now)
                &&& (!(exists|x: u32| vs@.contains(x) && x > now) ==> forall|x: u32|
                    vs@.contains(x) ==> r <= x)
            },
    {
        match &self.1 {
            CronInterval::Every => {
                let max = self.0.max();
                if now < max {
                    now + 1
                } else {
                    self.0.min()
                }
            },
            CronInterval::Multiple(v) => {
                let mut i: usize = 0;
                while i < v.len()
                    invariant
                        i <= v@.len(),
                        forall|k: int| 0 <= k < i ==> v@[k] <= now,
                    decreases v@.len() - i,
                {
                    if v[i] > now {
                        let val = v[i];
                        proof {
                            assert(self.0.spec_min() <= v@[i as int] <= self.0.spec_max());
                            assert forall|x: u32| v@.contains(x) && x > now implies val <= x by {
                                let j = choose|j: int| 0 <= j < v@.len() && v@[j] == x;
                                if j < i {
                                    assert(v@[j] <= now);
                                } else if j > i {
                                    assert(v@[i as int] < v@[j]);
                                }
                            }
                            assert(v@.contains(val));
                            assert(val > now);
                            assert(self.1 matches CronInterval::Multiple(vs) && vs@ == v@);
                        }
                        return val;
                    }
                    i += 1;
                }
                proof {
                    assert(v@.contains(v@[0]));
                    assert forall|x: u32| v@.contains(x) implies v@[0] <= x by {
                        let j = choose|j: int| 0 <= j < v@.len() && v@[j] == x;
                        if j > 0 {
                            assert(v@[0] < v@[j]);
                        }
                    }
                    assert forall|x: u32| v@.contains(x) implies !(x > now) by {
                        let j = choose|j: int| 0 <= j < v@.len() && v@[j] == x;
                        assert(v@[j] <= now);
                    }
                }
                v[0]
            },
        }
    }

    /// Does this expression match every value (no restriction)?
    pub fn is_every(&self) -> (r: bool)
        ensures
            r == (self.1 is Every),
    {
        match self {
            CronExpr(_, CronInterval::Every) => true,
            _ => false,
        }
    }

    /// Is this expression restrictive (an explicit value set)?
    pub fn is_multiple(&self) -> (r: bool)
        ensures
            r == !(self.1 is Every),
    {
        !self.is_every()
    }
}

} // verus!
