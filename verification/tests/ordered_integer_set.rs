use integer_set::contiguous_integer_set::ContiguousIntegerSet;
use integer_set::ordered_integer_set::OrderedIntegerSet;

#[test]
fn test_ordered_integer_set_iter() {
    let set = OrderedIntegerSet::from_slice(&[[2, 4], [6, 7]]);
    let mut iter = set.to_iter();
    assert_eq!(iter.next(), Some(2));
    assert_eq!(iter.next(), Some(3));
    assert_eq!(iter.next(), Some(4));
    assert_eq!(iter.next(), Some(6));
    assert_eq!(iter.next(), Some(7));
    assert_eq!(iter.next(), None);
}

#[test]
fn test_integer_set_collect() {
    let mut set = OrderedIntegerSet::new();
    set.collect(1);
    set.collect(4);
    set.collect(5);
    set.collect(7);
    set.collect(8);
    set.collect(9);
    assert_eq!(
        set.into_intervals(),
        vec![
            ContiguousIntegerSet::new(1, 1),
            ContiguousIntegerSet::new(4, 5),
            ContiguousIntegerSet::new(7, 9)
        ]
    );

    let mut set = OrderedIntegerSet::from_slice(&[[1, 3], [5, 7], [15, 20]]);
    set.collect(-5);
    set.collect(-1);
    set.collect(0);
    set.collect(-10);
    set.collect(4);
    set.collect(10);
    set.collect(12);
    set.collect(13);
    assert_eq!(
        set.into_intervals(),
        vec![
            ContiguousIntegerSet::new(-10, -10),
            ContiguousIntegerSet::new(-5, -5),
            ContiguousIntegerSet::new(-1, 7),
            ContiguousIntegerSet::new(10, 10),
            ContiguousIntegerSet::new(12, 13),
            ContiguousIntegerSet::new(15, 20),
        ]
    );
}

fn check_coalesce_with(a: i64, b: i64, c: i64, d: i64, expected: Option<ContiguousIntegerSet>) {
    let i1 = ContiguousIntegerSet::new(a, b);
    let i2 = ContiguousIntegerSet::new(c, d);
    let m1 = i1.coalesce_with(&i2);
    let m2 = i2.coalesce_with(&i1);
    assert_eq!(m1, m2);
    assert_eq!(m1, expected);
}

#[test]
fn test_coalesce_with() {
    check_coalesce_with(1, 3, 4, 5, Some(ContiguousIntegerSet::new(1, 5)));
    check_coalesce_with(2, 3, 0, 5, Some(ContiguousIntegerSet::new(0, 5)));
    check_coalesce_with(2, 5, 1, 3, Some(ContiguousIntegerSet::new(1, 5)));
    check_coalesce_with(-3, -1, -1, 2, Some(ContiguousIntegerSet::new(-3, 2)));
    check_coalesce_with(3, 5, 7, 9, None);
    check_coalesce_with(9, 5, 5, 7, Some(ContiguousIntegerSet::new(5, 7)));
}

fn check_sub_contiguous(a: &[i64; 2], b: &[i64; 2], expected: &[[i64; 2]]) {
    let s1 = ContiguousIntegerSet::new(a[0], a[1]);
    let s2 = ContiguousIntegerSet::new(b[0], b[1]);
    assert_eq!(s1.sub(&s2), OrderedIntegerSet::from_slice(expected));
}

#[test]
fn test_sub_contiguous_integer_set() {
    check_sub_contiguous(&[6, 5], &[-1, 3], &[]);
    check_sub_contiguous(&[6, 5], &[1, 3], &[]);
    check_sub_contiguous(&[5, 10], &[3, 1], &[[5, 10]]);
    check_sub_contiguous(&[5, 8], &[-1, 3], &[[5, 8]]);
    check_sub_contiguous(&[2, 10], &[4, 9], &[[2, 3], [10, 10]]);
    check_sub_contiguous(&[2, 10], &[1, 8], &[[9, 10]]);
    check_sub_contiguous(&[2, 10], &[6, 8], &[[2, 5], [9, 10]]);
    check_sub_contiguous(&[2, 10], &[2, 10], &[]);
    check_sub_contiguous(&[2, 10], &[0, 12], &[]);
    check_sub_contiguous(&[3, 4], &[3, 4], &[]);
    check_sub_contiguous(&[3, 5], &[3, 3], &[[4, 5]]);
    check_sub_contiguous(&[3, 4], &[3, 3], &[[4, 4]]);
    check_sub_contiguous(&[-2, 5], &[-1, 3], &[[-2, -2], [4, 5]]);
}

fn check_set_minus_contiguous(a: &[[i64; 2]], b: &[i64; 2], expected: &[[i64; 2]]) {
    let diff = OrderedIntegerSet::from_slice(a)
        .sub_contiguous_integer_set(&ContiguousIntegerSet::new(b[0], b[1]));
    assert_eq!(diff, OrderedIntegerSet::from_slice(expected));
}

#[test]
fn test_integer_set_minus_contiguous_integer_set() {
    check_set_minus_contiguous(&[[1, 5], [8, 12], [-4, -2]], &[100, -100], &[[-4, -2], [1, 5], [8, 12]]);
    check_set_minus_contiguous(&[[1, 5], [108, 12], [-4, -2]], &[-3, 8], &[[-4, -4]]);
    check_set_minus_contiguous(&[[1, 5], [8, 12], [-4, -2]], &[-3, 8], &[[-4, -4], [9, 12]]);
    check_set_minus_contiguous(&[[1, 5], [8, 12], [-4, -2]], &[-5, 8], &[[9, 12]]);
    check_set_minus_contiguous(&[[1, 5], [8, 12], [-4, -2]], &[-5, -5], &[[-4, -2], [1, 5], [8, 12]]);
    check_set_minus_contiguous(&[[1, 5], [8, 12], [-4, -2]], &[-5, 0], &[[1, 5], [8, 12]]);
    check_set_minus_contiguous(&[[1, 5], [8, 12]], &[6, 7], &[[1, 5], [8, 12]]);
}

fn check_contiguous_minus_set(a: &[i64; 2], b: &[[i64; 2]], expected: &[[i64; 2]]) {
    let diff = ContiguousIntegerSet::new(a[0], a[1]).sub_integer_set(&OrderedIntegerSet::from_slice(b));
    assert_eq!(diff, OrderedIntegerSet::from_slice(expected));
}

#[test]
fn test_contiguous_integer_set_minus_integer_set() {
    check_contiguous_minus_set(&[1, 12], &[], &[[1, 12]]);
    check_contiguous_minus_set(&[1, 12], &[[12, 1]], &[[1, 12]]);
    check_contiguous_minus_set(&[1, 12], &[[2, 3], [5, 6]], &[[1, 1], [4, 4], [7, 12]]);
    check_contiguous_minus_set(&[1, 12], &[[-1, 3], [10, 13]], &[[4, 9]]);
}

fn check_sub_integer_set(a: &[[i64; 2]], b: &[[i64; 2]], expected: &[[i64; 2]]) {
    let mut diff = OrderedIntegerSet::from_slice(a).sub(&OrderedIntegerSet::from_slice(b));
    diff.coalesce_intervals_inplace();
    assert_eq!(diff, OrderedIntegerSet::from_slice(expected));
}

#[test]
fn test_sub_integer_set() {
    check_sub_integer_set(&[[1, 10]], &[[1, 3], [5, 7]], &[[4, 4], [8, 10]]);
    check_sub_integer_set(&[[0, 10]], &[[1, 3], [5, 7]], &[[0, 0], [4, 4], [8, 10]]);
    check_sub_integer_set(&[[0, 10], [15, 20]], &[[-1, 2], [5, 7]], &[[3, 4], [8, 10], [15, 20]]);
    check_sub_integer_set(
        &[[0, 10], [15, 20]],
        &[[-1, 2], [18, 22], [5, 7]],
        &[[3, 4], [8, 10], [15, 17]],
    );
    check_sub_integer_set(
        &[[0, 10], [15, 20], [-10, -5]],
        &[[-1, 2], [18, 22], [5, 7], [-12, -3]],
        &[[3, 4], [8, 10], [15, 17]],
    );
}
