use vstd::prelude::*;

verus! {

/// A point in time: a low-resolution integer timestamp.
pub type Time = i64;

/// A closed range `[start, end]` of time with `start <= end`.
#[derive(Clone, Copy, Debug, Eq)]
pub struct TimeInterval {
    start: Time,
    end: Time,
}

/// The one way to fail: a range whose start lies after its end.
#[derive(Clone, Copy, Debug, PartialEq, Eq, Structural)]
pub struct TimeIntervalError;

impl View for TimeInterval {
    type V = (int, int);

    /// The range as its two mathematical end points.
    closed spec fn view(&self) -> (int, int) {
        (self.start as int, self.end as int)
    }
}

/// `true` when `(s, e)` is a range that an interval can hold.
pub open spec fn valid_span(span: (int, int)) -> bool {
    span.0 <= span.1
}

/// `true` when time `t` lies in the closed range `span`.
pub open spec fn in_span(span: (int, int), t: int) -> bool {
    span.0 <= t && t <= span.1
}

impl TimeInterval {
    /// Holds of every interval: its start is at or before its end.
    #[verifier::type_invariant]
    pub open spec fn well_formed(self) -> bool {
        valid_span(self@)
    }

    /// Makes the interval `[start, end]`; fails exactly when `start > end`.
    pub fn new(start: Time, end: Time) -> (r: Result<Self, TimeIntervalError>)
        ensures
            r is Ok <==> start <= end,
            r matches Ok(i) ==> i@ == (start as int, end as int),
    {
        if start > end {
            Err(TimeIntervalError)
        } else {
            Ok(TimeInterval { start, end })
        }
    }

    /// Makes `[start, end]` where the caller already knows the range is valid.
    pub(crate) fn spanning(start: Time, end: Time) -> (r: Self)
        requires
            start <= end,
        ensures
            r@ == (start as int, end as int),
    {
        TimeInterval { start, end }
    }

    /// The first instant of the range.
    pub fn start(&self) -> (r: Time)
        ensures
            r as int == self@.0,
    {
        self.start
    }

    /// The last instant of the range.
    pub fn end(&self) -> (r: Time)
        ensures
            r as int == self@.1,
    {
        self.end
    }
}

impl PartialEq for TimeInterval {
    /// Two intervals are equal when their ranges are.
    fn eq(&self, other: &TimeInterval) -> (r: bool)
        ensures
            r == (self@ == other@),
    {
        self.start == other.start && self.end == other.end
    }
}

impl vstd::std_specs::cmp::PartialEqSpecImpl for TimeInterval {
    open spec fn obeys_eq_spec() -> bool {
        true
    }

    open spec fn eq_spec(&self, other: &TimeInterval) -> bool {
        self@ == other@
    }
}

impl PartialEq<(Time, Time)> for TimeInterval {
    /// An interval equals the raw pair of its start and end.
    fn eq(&self, other: &(Time, Time)) -> (r: bool)
        ensures
            r == (self@ == (other.0 as int, other.1 as int)),
    {
        self.start == other.0 && self.end == other.1
    }
}

impl vstd::std_specs::cmp::PartialEqSpecImpl<(Time, Time)> for TimeInterval {
    open spec fn obeys_eq_spec() -> bool {
        true
    }

    open spec fn eq_spec(&self, other: &(Time, Time)) -> bool {
        self@ == (other.0 as int, other.1 as int)
    }
}

impl TryFrom<(Time, Time)> for TimeInterval {
    type Error = TimeIntervalError;

    /// Same as [`TimeInterval::new`] on the pair's two ends.
    fn try_from(pair: (Time, Time)) -> (r: Result<Self, TimeIntervalError>)
        ensures
            r is Ok <==> pair.0 <= pair.1,
            r matches Ok(i) ==> i@ == (pair.0 as int, pair.1 as int),
    {
        Self::new(pair.0, pair.1)
    }
}

impl vstd::std_specs::convert::TryFromSpecImpl<(Time, Time)> for TimeInterval {
    open spec fn obeys_try_from_spec() -> bool {
        false
    }

    open spec fn try_from_spec(pair: (Time, Time)) -> Result<Self, TimeIntervalError> {
        arbitrary()
    }
}

} // verus!
