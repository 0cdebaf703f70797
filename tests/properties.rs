use time_intervals::{Time, TimeInterval, TimeIntervalError, TimeIntervals};

fn build(pairs: &[(Time, Time)]) -> TimeIntervals {
    TimeIntervals::from_pairs(pairs).unwrap()
}

fn ranges(set: &TimeIntervals) -> Vec<(Time, Time)> {
    set.intervals().iter().map(|i| (i.start(), i.end())).collect()
}

#[test]
fn interval_bounds_and_extremes() {
    let i = TimeInterval::new(3, 9).unwrap();
    assert_eq!(i.start(), 3);
    assert_eq!(i.end(), 9);
    assert!(TimeInterval::new(Time::MIN, Time::MAX).is_ok());
    assert!(TimeInterval::new(Time::MAX, Time::MAX).is_ok());
    assert_eq!(TimeInterval::new(Time::MAX, Time::MIN), Err(TimeIntervalError));
    assert_eq!(TimeInterval::new(0, -1), Err(TimeIntervalError));
}

#[test]
fn interval_try_from_pair() {
    assert_eq!(TimeInterval::try_from((4, 4)).unwrap(), (4, 4));
    assert_eq!(TimeInterval::try_from((5, 4)), Err(TimeIntervalError));
}

#[test]
fn interval_equality() {
    let a = TimeInterval::new(1, 5).unwrap();
    let b = TimeInterval::new(1, 5).unwrap();
    let c = TimeInterval::new(1, 6).unwrap();
    assert_eq!(a, b);
    assert_ne!(a, c);
    assert!(a == (1, 5));
    assert!(a != (1, 6));
    assert!(a != (0, 5));
}

#[test]
fn order_does_not_matter() {
    let a = build(&[(1, 2), (3, 4), (5, 6)]);
    let b = build(&[(3, 4), (1, 2), (5, 6)]);
    let c = build(&[(5, 6), (3, 4), (1, 2)]);
    assert_eq!(ranges(&a), vec![(1, 6)]);
    assert_eq!(ranges(&a), ranges(&b));
    assert_eq!(ranges(&a), ranges(&c));
}

#[test]
fn engulfing_in_any_order() {
    let orders: [&[(Time, Time)]; 3] = [
        &[(20, 40), (30, 50), (60, 90), (1, 100)],
        &[(1, 100), (20, 40), (30, 50), (60, 90)],
        &[(60, 90), (1, 100), (30, 50), (20, 40)],
    ];
    for pairs in orders {
        assert_eq!(ranges(&build(pairs)), vec![(1, 100)]);
    }
}

#[test]
fn rebuilding_canonical_is_fixed_point() {
    let first = build(&[(5, 10), (100, 200), (50, 60), (11, 12), (55, 70)]);
    assert_eq!(ranges(&first), vec![(5, 12), (50, 70), (100, 200)]);
    let again = TimeIntervals::new(first.intervals().to_vec());
    assert_eq!(ranges(&again), ranges(&first));
}

#[test]
fn empty_set() {
    let set = TimeIntervals::new(Vec::new());
    assert!(set.is_empty());
    assert!(!set.contains_time(0));
    assert!(!set.contains_time(Time::MIN));
    assert!(!set.contains_time(Time::MAX));
    assert!(ranges(&set).is_empty());
    let from_pairs = TimeIntervals::from_pairs(&[]).unwrap();
    assert!(from_pairs.is_empty());
}

#[test]
fn single_interval_holds_its_range_only() {
    for (s, e) in [(0, 0), (-7, 3), (10, 20), (Time::MIN, Time::MIN + 2), (Time::MAX - 2, Time::MAX)] {
        let set = TimeIntervals::new(vec![TimeInterval::new(s, e).unwrap()]);
        assert!(!set.is_empty());
        let mut t = s;
        loop {
            assert!(set.contains_time(t));
            if t == e {
                break;
            }
            t += 1;
        }
        if s > Time::MIN {
            assert!(!set.contains_time(s - 1));
        }
        if e < Time::MAX {
            assert!(!set.contains_time(e + 1));
        }
        assert_eq!(ranges(&set), vec![(s, e)]);
    }
}

#[test]
fn gap_of_one_instant_is_kept() {
    let set = build(&[(1, 2), (4, 5)]);
    assert_eq!(ranges(&set), vec![(1, 2), (4, 5)]);
    assert!(!set.contains_time(3));
    let touching = build(&[(4, 5), (1, 3)]);
    assert_eq!(ranges(&touching), vec![(1, 5)]);
}

#[test]
fn duplicates_and_extreme_bounds() {
    let set = build(&[(Time::MIN, 0), (1, Time::MAX), (Time::MIN, 0)]);
    assert_eq!(ranges(&set), vec![(Time::MIN, Time::MAX)]);
    assert!(set.contains_time(Time::MIN));
    assert!(set.contains_time(Time::MAX));
    let ends = build(&[(Time::MAX, Time::MAX), (Time::MIN, Time::MIN)]);
    assert_eq!(ranges(&ends), vec![(Time::MIN, Time::MIN), (Time::MAX, Time::MAX)]);
    assert!(ends.contains_time(Time::MIN));
    assert!(!ends.contains_time(0));
    assert!(ends.contains_time(Time::MAX));
}

#[test]
fn unsorted_input_is_sorted_before_merging() {
    let set = build(&[(30, 40), (1, 2), (10, 20)]);
    assert_eq!(ranges(&set), vec![(1, 2), (10, 20), (30, 40)]);
    assert!(set.contains_time(1));
    assert!(set.contains_time(15));
    assert!(!set.contains_time(25));
}

#[test]
fn invalid_pair_gives_error_and_no_set() {
    assert_eq!(TimeIntervals::from_pairs(&[(1, 2), (5, 3), (7, 8)]).unwrap_err(), TimeIntervalError);
    let pairs: &[(Time, Time)] = &[(9, 1)];
    assert!(TimeIntervals::try_from(pairs).is_err());
}

#[test]
fn from_vec_of_intervals() {
    let v = vec![TimeInterval::new(8, 9).unwrap(), TimeInterval::new(1, 7).unwrap()];
    let set = TimeIntervals::from(v);
    assert_eq!(ranges(&set), vec![(1, 9)]);
    let copy = set.clone();
    assert_eq!(ranges(&copy), vec![(1, 9)]);
}

#[test]
fn many_ranges_binary_search() {
    let pairs: Vec<(Time, Time)> = (0..100).map(|k| (k * 10, k * 10 + 4)).collect();
    let set = build(&pairs);
    assert_eq!(set.intervals().len(), 100);
    for t in -5..1005 {
        let expected = t >= 0 && t < 1000 && t % 10 <= 4;
        assert_eq!(set.contains_time(t), expected, "time {}", t);
    }
}
