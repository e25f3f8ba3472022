use integer_set::contiguous_integer_set::ContiguousIntegerSet;
use integer_set::ordered_integer_set::OrderedIntegerSet;

#[test]
fn test_contiguous_slice_empty_rank_range() {
    let interval = ContiguousIntegerSet::new(1, 12);
    assert_eq!(interval.slice(0..0), None);
    assert_eq!(interval.slice(5..5), None);
    assert_eq!(interval.slice(7..3), None);
    assert_eq!(interval.slice(12..14), None);
}

#[test]
fn test_contiguous_slice_by_rank() {
    let interval = ContiguousIntegerSet::new(10, 20);
    assert_eq!(interval.slice(0..3), Some(ContiguousIntegerSet::new(10, 12)));
    assert_eq!(interval.slice(4..11), Some(ContiguousIntegerSet::new(14, 20)));
    assert_eq!(interval.slice(10..11), Some(ContiguousIntegerSet::new(20, 20)));
    let negative = ContiguousIntegerSet::new(-5, -1);
    assert_eq!(negative.slice(1..3), Some(ContiguousIntegerSet::new(-4, -3)));
}

#[test]
fn test_ordered_set_slice_empty_rank_range() {
    let set = OrderedIntegerSet::from_slice(&[[1, 3], [5, 7]]);
    assert!(set.slice(0..0).is_empty());
    assert!(set.slice(3..3).is_empty());
    assert!(set.slice(5..2).is_empty());
    assert!(set.slice(100..200).is_empty());
}

#[test]
fn test_ordered_set_slice_by_rank() {
    let set = OrderedIntegerSet::from_slice(&[[1, 3], [5, 7], [15, 20]]);
    // ascending elements: 1 2 3 5 6 7 15 16 17 18 19 20
    let middle = set.slice(2..6);
    assert_eq!(
        middle.into_intervals(),
        vec![ContiguousIntegerSet::new(3, 3), ContiguousIntegerSet::new(5, 7)]
    );
    let prefix = set.slice(0..4);
    assert_eq!(
        prefix.into_intervals(),
        vec![ContiguousIntegerSet::new(1, 3), ContiguousIntegerSet::new(5, 5)]
    );
    let suffix = set.slice(6..12);
    assert_eq!(suffix.into_intervals(), vec![ContiguousIntegerSet::new(15, 20)]);
    // an upper rank past the set's size is clamped
    let clamped = set.slice(6..100);
    assert_eq!(clamped.into_intervals(), vec![ContiguousIntegerSet::new(15, 20)]);
}

#[test]
fn test_slice_size_matches_rank_range() {
    let set = OrderedIntegerSet::from_slice(&[[0, 9], [20, 29], [40, 49]]);
    for lo in 0..30 {
        let sliced = set.slice(lo..(lo + 3));
        assert_eq!(sliced.size(), 3.min(30 - lo));
    }
}

#[test]
fn test_slice_matches_iteration_order() {
    let set = OrderedIntegerSet::from_slice(&[[1, 3], [5, 7], [15, 20]]);
    let mut all = Vec::new();
    let mut iter = set.to_iter();
    while let Some(v) = iter.next() {
        all.push(v);
    }
    for lo in 0..all.len() {
        for hi in lo + 1..=all.len() {
            let sliced = set.slice(lo..hi);
            let mut sliced_elements = Vec::new();
            let mut sliced_iter = sliced.to_iter();
            while let Some(v) = sliced_iter.next() {
                sliced_elements.push(v);
            }
            assert_eq!(sliced_elements, all[lo..hi].to_vec());
        }
    }
}
