use integer_set::contiguous_integer_set::ContiguousIntegerSet;
use integer_set::jackknife::JackknifeConfig;
use integer_set::ordered_integer_set::OrderedIntegerSet;

#[test]
fn test_contiguous_integer_set_basics() {
    let a = ContiguousIntegerSet::new(3, 7);
    assert_eq!(a.get_start(), 3);
    assert_eq!(a.get_end(), 7);
    assert_eq!(a.length(), 4);
    assert_eq!(a.size(), 5);
    assert!(!a.is_empty());
    assert!(a.contains(3));
    assert!(a.contains(7));
    assert!(!a.contains(8));
    let e = ContiguousIntegerSet::new(5, 2);
    assert!(e.is_empty());
    assert_eq!(e.size(), 0);
    assert!(!e.contains(3));
}

#[test]
fn test_contiguous_intersect() {
    let a = ContiguousIntegerSet::new(2, 10);
    let b = ContiguousIntegerSet::new(5, 14);
    assert_eq!(a.intersect(&b), Some(ContiguousIntegerSet::new(5, 10)));
    assert_eq!(b.intersect(&a), Some(ContiguousIntegerSet::new(5, 10)));
    let c = ContiguousIntegerSet::new(11, 14);
    assert_eq!(a.intersect(&c), None);
    let empty = ContiguousIntegerSet::new(4, 1);
    assert_eq!(a.intersect(&empty), None);
}

#[test]
fn test_coalesce_with_point() {
    let a = ContiguousIntegerSet::new(2, 5);
    assert_eq!(a.coalesce_with_point(6), Some(ContiguousIntegerSet::new(2, 6)));
    assert_eq!(a.coalesce_with_point(1), Some(ContiguousIntegerSet::new(1, 5)));
    assert_eq!(a.coalesce_with_point(3), Some(ContiguousIntegerSet::new(2, 5)));
    assert_eq!(a.coalesce_with_point(7), None);
    assert_eq!(a.coalesce_with_point(0), None);
    let empty = ContiguousIntegerSet::new(5, 2);
    assert_eq!(empty.coalesce_with_point(9), Some(ContiguousIntegerSet::new(9, 9)));
}

#[test]
fn test_contiguous_integer_set_iter() {
    let a = ContiguousIntegerSet::new(-2, 1);
    let mut iter = a.to_iter();
    assert_eq!(iter.next(), Some(-2));
    assert_eq!(iter.next(), Some(-1));
    assert_eq!(iter.next(), Some(0));
    assert_eq!(iter.next(), Some(1));
    assert_eq!(iter.next(), None);
    assert_eq!(iter.next(), None);
    let empty = ContiguousIntegerSet::new(1, -2);
    let mut iter = empty.to_iter();
    assert_eq!(iter.next(), None);
}

#[test]
fn test_from_slice_canonicalizes() {
    // unsorted, overlapping, adjacent and empty pairs all normalize
    let set = OrderedIntegerSet::from_slice(&[[8, 9], [1, 3], [4, 6], [12, 10], [2, 5]]);
    assert_eq!(
        set.into_intervals(),
        vec![ContiguousIntegerSet::new(1, 6), ContiguousIntegerSet::new(8, 9)]
    );
    let empty = OrderedIntegerSet::from_slice(&[]);
    assert_eq!(empty.num_intervals(), 0);
    assert!(empty.is_empty());
}

#[test]
fn test_from_contiguous_integer_sets() {
    let sets = vec![
        ContiguousIntegerSet::new(5, 6),
        ContiguousIntegerSet::new(9, 8),
        ContiguousIntegerSet::new(-1, 2),
        ContiguousIntegerSet::new(3, 4),
    ];
    let set = OrderedIntegerSet::from_contiguous_integer_sets(sets);
    assert_eq!(set.into_intervals(), vec![ContiguousIntegerSet::new(-1, 6)]);
}

#[test]
fn test_from_ordered_coalesced_contiguous_integer_sets() {
    let sets = vec![ContiguousIntegerSet::new(1, 3), ContiguousIntegerSet::new(7, 9)];
    let set = OrderedIntegerSet::from_ordered_coalesced_contiguous_integer_sets(sets.clone());
    assert_eq!(set.get_intervals_by_ref(), &sets);
    assert_eq!(set.num_intervals(), 2);
}

#[test]
fn test_first_and_last() {
    let set = OrderedIntegerSet::from_slice(&[[5, 7], [-3, -1], [10, 10]]);
    assert_eq!(set.first(), Some(-3));
    assert_eq!(set.last(), Some(10));
    assert_eq!(set.first_and_last(), Some((-3, 10)));
    let empty = OrderedIntegerSet::new();
    assert_eq!(empty.first(), None);
    assert_eq!(empty.last(), None);
    assert_eq!(empty.first_and_last(), None);
}

#[test]
fn test_ordered_set_contains() {
    let set = OrderedIntegerSet::from_slice(&[[1, 3], [5, 7], [15, 20]]);
    assert!(set.contains(1));
    assert!(set.contains(6));
    assert!(set.contains(20));
    assert!(!set.contains(4));
    assert!(!set.contains(0));
    assert!(!set.contains(21));
}

#[test]
fn test_ordered_set_intersect() {
    let a = OrderedIntegerSet::from_slice(&[[0, 10], [15, 20]]);
    let b = OrderedIntegerSet::from_slice(&[[-1, 2], [5, 7], [17, 25]]);
    let i = a.intersect(&b);
    assert_eq!(
        i.into_intervals(),
        vec![
            ContiguousIntegerSet::new(0, 2),
            ContiguousIntegerSet::new(5, 7),
            ContiguousIntegerSet::new(17, 20)
        ]
    );
    let empty = a.intersect(&OrderedIntegerSet::new());
    assert!(empty.is_empty());
}

#[test]
fn test_size_matches_iteration_count() {
    // round trip: the cardinality equals the number of iterated elements
    let set = OrderedIntegerSet::from_slice(&[[1, 3], [5, 7], [15, 20]]);
    let mut count = 0;
    let mut iter = set.to_iter();
    while let Some(_) = iter.next() {
        count += 1;
    }
    assert_eq!(set.size(), 12);
    assert_eq!(count, 12);
    let empty = OrderedIntegerSet::new();
    assert_eq!(empty.size(), 0);
}

#[test]
fn test_coalesce_idempotent() {
    // coalescing an already-canonical set changes nothing
    let set = OrderedIntegerSet::from_slice(&[[3, 4], [8, 9], [1, 1]]);
    let once = set.to_coalesced_intervals();
    let mut again = set.clone();
    again.coalesce_intervals_inplace();
    assert_eq!(again.get_intervals_by_ref(), &once);
    assert_eq!(again, set);
}

#[test]
fn test_remove_empty_intervals_is_noop_on_canonical() {
    let mut set = OrderedIntegerSet::from_slice(&[[1, 2], [9, 4], [5, 6]]);
    set.remove_empty_intervals();
    assert_eq!(
        set.into_intervals(),
        vec![ContiguousIntegerSet::new(1, 2), ContiguousIntegerSet::new(5, 6)]
    );
    let set = OrderedIntegerSet::from_slice(&[[1, 2]]);
    assert_eq!(set.to_non_empty_intervals(), set);
    assert_eq!(set.clone().into_non_empty_intervals(), set);
}

#[test]
fn test_subtract_partition() {
    // difference and intersection partition the left operand
    let a = ContiguousIntegerSet::new(2, 10);
    let b = ContiguousIntegerSet::new(4, 9);
    let diff = a.sub(&b);
    let inter = a.intersect(&b).unwrap();
    for x in -1..13 {
        let in_a = a.contains(x);
        let in_diff = diff.contains(x);
        let in_inter = inter.contains(x);
        assert_eq!(in_diff || in_inter, in_a);
        assert!(!(in_diff && in_inter));
    }
}

#[test]
fn test_sub_assign_ops() {
    let mut set = OrderedIntegerSet::from_slice(&[[0, 10]]);
    set.sub_assign_contiguous_integer_set(&ContiguousIntegerSet::new(3, 5));
    assert_eq!(
        set.get_intervals_by_ref(),
        &vec![ContiguousIntegerSet::new(0, 2), ContiguousIntegerSet::new(6, 10)]
    );
    set.sub_assign(&OrderedIntegerSet::from_slice(&[[0, 1], [8, 12]]));
    assert_eq!(
        set.into_intervals(),
        vec![ContiguousIntegerSet::new(2, 2), ContiguousIntegerSet::new(6, 7)]
    );
}

#[test]
fn test_collect_bridges_adjacent_intervals() {
    // a collected point exactly filling a gap of one merges its neighbours
    let mut set = OrderedIntegerSet::from_slice(&[[1, 3], [5, 9]]);
    set.collect(4);
    assert_eq!(set.into_intervals(), vec![ContiguousIntegerSet::new(1, 9)]);
}

#[test]
fn test_intervals_iter() {
    let set = OrderedIntegerSet::from_slice(&[[1, 2], [5, 6]]);
    let mut it = set.intervals_iter();
    assert_eq!(it.next(), Some(&ContiguousIntegerSet::new(1, 2)));
    assert_eq!(it.next(), Some(&ContiguousIntegerSet::new(5, 6)));
    assert_eq!(it.next(), None);
}

#[test]
fn test_iteration_is_restartable() {
    // a fresh iteration always starts at the first element
    let set = OrderedIntegerSet::from_slice(&[[3, 4], [8, 8]]);
    let mut first_pass = set.to_iter();
    assert_eq!(first_pass.next(), Some(3));
    assert_eq!(first_pass.next(), Some(4));
    let mut second_pass = set.to_iter();
    assert_eq!(second_pass.next(), Some(3));
    let interval = ContiguousIntegerSet::new(5, 6);
    let mut iter = interval.to_iter();
    assert_eq!(iter.next(), Some(5));
    let mut again = interval.to_iter();
    assert_eq!(again.next(), Some(5));
}

#[test]
fn test_is_empty_after_subtracting_everything() {
    let set = OrderedIntegerSet::from_slice(&[[1, 5]]);
    let all = ContiguousIntegerSet::new(0, 6);
    let diff = set.sub_contiguous_integer_set(&all);
    assert!(diff.is_empty());
    assert_eq!(diff.size(), 0);
    assert_eq!(diff, OrderedIntegerSet::new());
}

#[test]
fn test_jackknife_config_new() {
    let config = JackknifeConfig::new(100, 5);
    assert_eq!(config.leave_out, 100);
    assert_eq!(config.num_reps, 5);
}
