use vstd::prelude::*;

use crate::interval::{in_span, valid_span, Time, TimeInterval, TimeIntervalError};

verus! {

broadcast use vstd::seq_lib::group_to_multiset_ensures;

/// The ranges of a sequence of intervals, in the same order.
pub open spec fn spans(s: Seq<TimeInterval>) -> Seq<(int, int)> {
    s.map_values(|i: TimeInterval| i@)
}

/// `true` when some range of `s` holds time `t`.
pub open spec fn covers(s: Seq<(int, int)>, t: int) -> bool {
    exists|k: int| 0 <= k < s.len() && in_span(#[trigger] s[k], t)
}

/// Canonical form: every range valid, and each one ends more than one
/// instant before any later one begins (sorted, no overlap, no adjacency).
pub open spec fn canonical(s: Seq<(int, int)>) -> bool {
    &&& forall|k: int| 0 <= k < s.len() ==> valid_span(#[trigger] s[k])
    &&& forall|j: int, k: int| 0 <= j < k < s.len() ==> #[trigger] s[j].1 + 1 < #[trigger] s[k].0
}

/// `output` is the canonical form of `input`: canonical, and covering
/// exactly the instants that `input` covers.
pub open spec fn builds(input: Seq<(int, int)>, output: Seq<(int, int)>) -> bool {
    &&& canonical(output)
    &&& forall|t: int| #[trigger] covers(output, t) == covers(input, t)
}

/// The ranges of a sequence of raw `(start, end)` pairs.
pub open spec fn pair_spans(p: Seq<(Time, Time)>) -> Seq<(int, int)> {
    p.map_values(|q: (Time, Time)| (q.0 as int, q.1 as int))
}

/// Every pair of `p` has its start at or before its end.
pub open spec fn all_valid(p: Seq<(Time, Time)>) -> bool {
    forall|k: int| 0 <= k < p.len() ==> (#[trigger] p[k]).0 <= p[k].1
}

/// Starts ascend along `s`.
pub open spec fn sorted_by_start(s: Seq<(int, int)>) -> bool {
    forall|j: int, k: int| 0 <= j <= k < s.len() ==> #[trigger] s[j].0 <= #[trigger] s[k].0
}

/// Relies on `slice::sort_by_key`: it reorders the elements in place so that
/// their starts ascend.
#[verifier::external_body]
fn sort_by_start(v: &mut Vec<TimeInterval>)
    ensures
        final(v)@.to_multiset() == old(v)@.to_multiset(),
        sorted_by_start(spans(final(v)@)),
{
    v.sort_by_key(|i| i.start());
}

/// Reordering intervals does not change what they cover.
pub(crate) proof fn lemma_permutation_covers(a: Seq<TimeInterval>, b: Seq<TimeInterval>, t: int)
    requires
        a.to_multiset() == b.to_multiset(),
    ensures
        covers(spans(a), t) == covers(spans(b), t),
{
    if covers(spans(a), t) {
        let k = choose|k: int| 0 <= k < spans(a).len() && in_span(#[trigger] spans(a)[k], t);
        assert(a.contains(a[k]));
        assert(a.to_multiset().count(a[k]) > 0);
        assert(b.to_multiset().count(a[k]) > 0);
        assert(b.contains(a[k]));
        let j = choose|j: int| 0 <= j < b.len() && b[j] == a[k];
        assert(in_span(spans(b)[j], t));
    }
    if covers(spans(b), t) {
        let k = choose|k: int| 0 <= k < spans(b).len() && in_span(#[trigger] spans(b)[k], t);
        assert(b.contains(b[k]));
        assert(b.to_multiset().count(b[k]) > 0);
        assert(a.to_multiset().count(b[k]) > 0);
        assert(a.contains(b[k]));
        let j = choose|j: int| 0 <= j < a.len() && a[j] == b[k];
        assert(in_span(spans(a)[j], t));
    }
}

/// A nonempty sequence covers `t` when its prefix does or its last range does.
proof fn lemma_covers_last(s: Seq<(int, int)>, t: int)
    requires
        s.len() > 0,
    ensures
        covers(s, t) == (covers(s.drop_last(), t) || in_span(s.last(), t)),
{
    if covers(s, t) {
        let k = choose|k: int| 0 <= k < s.len() && in_span(#[trigger] s[k], t);
        if k < s.len() - 1 {
            assert(in_span(s.drop_last()[k], t));
        }
    }
    if covers(s.drop_last(), t) {
        let k = choose|k: int| 0 <= k < s.drop_last().len() && in_span(#[trigger] s.drop_last()[k], t);
        assert(in_span(s[k], t));
    }
    if in_span(s.last(), t) {
        assert(in_span(s[s.len() - 1], t));
    }
}

/// An immutable set of time ranges held in canonical form.
#[derive(Debug)]
pub struct TimeIntervals {
    intervals: Vec<TimeInterval>,
}

impl View for TimeIntervals {
    type V = Seq<(int, int)>;

    /// The canonical ranges, ascending.
    closed spec fn view(&self) -> Seq<(int, int)> {
        spans(self.intervals@)
    }
}

impl Clone for TimeIntervals {
    fn clone(&self) -> (r: Self)
        ensures
            r@ == self@,
    {
        proof {
            use_type_invariant(self);
        }
        let intervals = self.intervals.clone();
        proof {
            assert(spans(intervals@) =~= spans(self.intervals@));
        }
        TimeIntervals { intervals }
    }
}

impl TimeIntervals {
    /// Holds of every set: its ranges are in canonical form.
    #[verifier::type_invariant]
    pub open spec fn well_formed(self) -> bool {
        canonical(self@)
    }

    /// Builds the canonical form of `intervals`, given in any order and with
    /// any overlap: sorts them by start, then folds each one into the last
    /// range kept when it overlaps or touches it, else keeps it as a new range.
    pub fn new(intervals: Vec<TimeInterval>) -> (r: Self)
        ensures
            builds(spans(intervals@), r@),
    {
        let mut sorted = intervals;
        sort_by_start(&mut sorted);
        let ghost ss = spans(sorted@);
        let mut merged: Vec<TimeInterval> = Vec::new();
        let n = sorted.len();
        let mut i: usize = 0;
        while i < n
            invariant
                n == sorted@.len(),
                ss == spans(sorted@),
                i <= n,
                sorted_by_start(ss),
                canonical(spans(merged@)),
                (i == 0) == (merged@.len() == 0),
                i > 0 ==> spans(merged@).last().0 <= ss[i - 1].0,
                forall|t: int| #[trigger] covers(spans(merged@), t) == covers(ss.take(i as int), t),
            decreases n - i,
        {
            let cur = sorted[i];
            proof {
                use_type_invariant(&cur);
            }
            let ghost before = spans(merged@);
            let len = merged.len();
            if len == 0 {
                merged.push(cur);
                proof {
                    assert(spans(merged@) =~= seq![cur@]);
                    assert(ss.take(1) =~= seq![cur@]);
                }
            } else {
                let last = merged[len - 1];
                if cur.start() <= last.end() || cur.start() - 1 <= last.end() {
                    let end = if cur.end() > last.end() { cur.end() } else { last.end() };
                    merged[len - 1] = TimeInterval::spanning(last.start(), end);
                    proof {
                        assert(spans(merged@) =~= before.update(len - 1, (last@.0, end as int)));
                        assert(spans(merged@).drop_last() =~= before.drop_last());
                        assert forall|t: int| #[trigger]
                            covers(spans(merged@), t) == covers(ss.take(i + 1), t) by {
                            lemma_covers_last(spans(merged@), t);
                            lemma_covers_last(before, t);
                            lemma_covers_last(ss.take(i + 1), t);
                            assert(ss.take(i + 1).drop_last() =~= ss.take(i as int));
                        }
                    }
                } else {
                    merged.push(cur);
                    proof {
                        assert(spans(merged@) =~= before.push(cur@));
                        assert(spans(merged@).drop_last() =~= before);
                        assert forall|t: int| #[trigger]
                            covers(spans(merged@), t) == covers(ss.take(i + 1), t) by {
                            lemma_covers_last(spans(merged@), t);
                            lemma_covers_last(ss.take(i + 1), t);
                            assert(ss.take(i + 1).drop_last() =~= ss.take(i as int));
                        }
                    }
                }
            }
            i = i + 1;
        }
        proof {
            assert(ss.take(n as int) =~= ss);
            assert forall|t: int| #[trigger]
                covers(spans(merged@), t) == covers(spans(intervals@), t) by {
                lemma_permutation_covers(sorted@, intervals@, t);
            }
        }
        TimeIntervals { intervals: merged }
    }

    /// Builds a set from raw `(start, end)` pairs; fails, with no set, exactly
    /// when some pair has its start after its end.
    pub fn from_pairs(pairs: &[(Time, Time)]) -> (r: Result<Self, TimeIntervalError>)
        ensures
            r is Ok <==> all_valid(pairs@),
            r matches Ok(set) ==> builds(pair_spans(pairs@), set@),
    {
        let mut intervals: Vec<TimeInterval> = Vec::new();
        let mut i: usize = 0;
        while i < pairs.len()
            invariant
                i <= pairs@.len(),
                spans(intervals@) == pair_spans(pairs@).take(i as int),
                forall|k: int| 0 <= k < i ==> (#[trigger] pairs@[k]).0 <= pairs@[k].1,
            decreases pairs@.len() - i,
        {
            let (start, end) = pairs[i];
            match TimeInterval::new(start, end) {
                Ok(interval) => {
                    let ghost before = intervals@;
                    intervals.push(interval);
                    proof {
                        assert(spans(intervals@) =~= spans(before).push(interval@));
                        assert(pair_spans(pairs@).take(i + 1) =~= pair_spans(pairs@).take(
                            i as int,
                        ).push((start as int, end as int)));
                        assert(spans(intervals@) =~= pair_spans(pairs@).take(i + 1));
                    }
                },
                Err(e) => {
                    return Err(e);
                },
            }
            i = i + 1;
        }
        proof {
            assert(pair_spans(pairs@).take(i as int) =~= pair_spans(pairs@));
        }
        Ok(Self::new(intervals))
    }

    /// Whether some range of the set holds `time`: a binary search for the
    /// last range starting at or before `time`, which alone can hold it.
    pub fn contains_time(&self, time: Time) -> (r: bool)
        ensures
            r == covers(self@, time as int),
    {
        proof {
            use_type_invariant(self);
        }
        let ghost s = self@;
        let n = self.intervals.len();
        if n == 0 {
            return false;
        }
        let mut lo: usize = 0;
        let mut hi: usize = n;
        while lo < hi
            invariant
                lo <= hi <= n,
                n == s.len(),
                s == spans(self.intervals@),
                canonical(s),
                forall|k: int| 0 <= k < lo ==> (#[trigger] s[k]).0 <= time,
                forall|k: int| hi <= k < n ==> (#[trigger] s[k]).0 > time,
            decreases hi - lo,
        {
            let mid = lo + (hi - lo) / 2;
            if self.intervals[mid].start() <= time {
                proof {
                    assert forall|k: int| 0 <= k <= mid implies (#[trigger] s[k]).0 <= time by {
                        if k < mid {
                            assert(s[k].1 + 1 < s[mid as int].0);
                        }
                    }
                }
                lo = mid + 1;
            } else {
                proof {
                    assert forall|k: int| mid <= k < n implies (#[trigger] s[k]).0 > time by {
                        if k > mid {
                            assert(s[mid as int].1 + 1 < s[k].0);
                        }
                    }
                }
                hi = mid;
            }
        }
        let r = lo > 0 && self.intervals[lo - 1].end() >= time;
        proof {
            if covers(s, time as int) {
                let k = choose|k: int| 0 <= k < s.len() && in_span(#[trigger] s[k], time as int);
                assert(k < lo);
                if k < lo - 1 {
                    assert(s[k].1 + 1 < s[lo - 1].0);
                }
            }
            if r {
                assert(in_span(s[lo - 1], time as int));
            }
        }
        r
    }

    /// Whether the set holds no range at all (and so no instant).
    pub fn is_empty(&self) -> (r: bool)
        ensures
            r == (self@.len() == 0),
    {
        self.intervals.len() == 0
    }

    /// The canonical ranges, ascending by start.
    pub fn intervals(&self) -> (r: &[TimeInterval])
        ensures
            spans(r@) == self@,
    {
        self.intervals.as_slice()
    }
}

impl From<Vec<TimeInterval>> for TimeIntervals {
    /// Same as [`TimeIntervals::new`].
    fn from(intervals: Vec<TimeInterval>) -> (r: Self)
        ensures
            builds(spans(intervals@), r@),
    {
        Self::new(intervals)
    }
}

impl vstd::std_specs::convert::FromSpecImpl<Vec<TimeInterval>> for TimeIntervals {
    open spec fn obeys_from_spec() -> bool {
        false
    }

    open spec fn from_spec(v: Vec<TimeInterval>) -> Self {
        arbitrary()
    }
}

impl<'a> TryFrom<&'a [(Time, Time)]> for TimeIntervals {
    type Error = TimeIntervalError;

    /// Same as [`TimeIntervals::from_pairs`].
    fn try_from(pairs: &'a [(Time, Time)]) -> (r: Result<Self, TimeIntervalError>)
        ensures
            r is Ok <==> all_valid(pairs@),
            r matches Ok(set) ==> builds(pair_spans(pairs@), set@),
    {
        Self::from_pairs(pairs)
    }
}

impl<'a> vstd::std_specs::convert::TryFromSpecImpl<&'a [(Time, Time)]> for TimeIntervals {
    open spec fn obeys_try_from_spec() -> bool {
        false
    }

    open spec fn try_from_spec(pairs: &'a [(Time, Time)]) -> Result<Self, TimeIntervalError> {
        arbitrary()
    }
}

} // verus!
