//! The mathematical model of a sequence of intervals, and its lemmas.

use vstd::prelude::*;

use crate::contiguous_integer_set::ContiguousIntegerSet;

verus! {

/// Some interval of the sequence contains `x`.
pub open spec fn seq_contains(s: Seq<ContiguousIntegerSet>, x: int) -> bool {
    exists|i: int| 0 <= i < s.len() && #[trigger] s[i].spec_contains(x)
}

/// The sequence is in canonical form: no empty interval, and consecutive
/// intervals are neither overlapping nor adjacent (sorted ascending follows).
pub open spec fn canonical(s: Seq<ContiguousIntegerSet>) -> bool {
    &&& forall|i: int| 0 <= i < s.len() ==> !(#[trigger] s[i]).spec_is_empty()
    &&& forall|i: int| 0 <= i && i + 1 < s.len() ==> (#[trigger] s[i]).end + 1 < s[i + 1].start
}

/// The intervals are sorted ascending by their `start` field.
pub open spec fn sorted_by_start(s: Seq<ContiguousIntegerSet>) -> bool {
    forall|i: int, j: int| 0 <= i <= j < s.len() ==> (#[trigger] s[i]).start <= (#[trigger] s[j]).start
}

/// The total number of integers the intervals denote, counted interval by
/// interval.
pub open spec fn total_size(s: Seq<ContiguousIntegerSet>) -> int
    decreases s.len(),
{
    if s.len() == 0 {
        0
    } else {
        s[0].spec_size() + total_size(s.drop_first())
    }
}

/// The integers of all the intervals, interval by interval in order.
pub open spec fn elems(s: Seq<ContiguousIntegerSet>) -> Seq<int>
    decreases s.len(),
{
    if s.len() == 0 {
        Seq::empty()
    } else {
        s[0].seq_of() + elems(s.drop_first())
    }
}

/// In a canonical sequence any two intervals, not only consecutive ones, are
/// separated by a gap of at least one integer.
pub proof fn lemma_canonical_gap(s: Seq<ContiguousIntegerSet>, i: int, j: int)
    requires
        canonical(s),
        0 <= i < j < s.len(),
    ensures
        s[i].end + 1 < s[j].start,
    decreases j - i,
{
    if j == i + 1 {
    } else {
        lemma_canonical_gap(s, i + 1, j);
    }
}

pub proof fn lemma_total_size_nonneg(s: Seq<ContiguousIntegerSet>)
    ensures
        total_size(s) >= 0,
    decreases s.len(),
{
    if s.len() > 0 {
        lemma_total_size_nonneg(s.drop_first());
    }
}

/// `elems` lists exactly `total_size` integers.
pub proof fn lemma_elems_len(s: Seq<ContiguousIntegerSet>)
    ensures
        elems(s).len() == total_size(s),
    decreases s.len(),
{
    if s.len() > 0 {
        lemma_elems_len(s.drop_first());
        lemma_total_size_nonneg(s.drop_first());
    }
}

/// Appending an interval appends its integers to `elems`.
pub proof fn lemma_elems_push(s: Seq<ContiguousIntegerSet>, a: ContiguousIntegerSet)
    ensures
        elems(s.push(a)) == elems(s) + a.seq_of(),
    decreases s.len(),
{
    if s.len() == 0 {
        assert(s.push(a).drop_first() =~= Seq::empty());
        assert(elems(s.push(a)) == s.push(a)[0].seq_of() + elems(s.push(a).drop_first()));
        assert(s.push(a)[0] == a);
        assert(elems(s.push(a)) =~= elems(s) + a.seq_of());
    } else {
        assert(s.push(a).drop_first() =~= s.drop_first().push(a));
        lemma_elems_push(s.drop_first(), a);
        assert(s.push(a)[0] == s[0]);
        assert(elems(s.push(a)) == s[0].seq_of() + (elems(s.drop_first()) + a.seq_of()));
        assert(elems(s) == s[0].seq_of() + elems(s.drop_first()));
        assert(s[0].seq_of() + (elems(s.drop_first()) + a.seq_of()) =~= (s[0].seq_of() + elems(
            s.drop_first(),
        )) + a.seq_of());
    }
}

/// Appending an interval adds its size to `total_size`.
pub proof fn lemma_total_size_push(s: Seq<ContiguousIntegerSet>, a: ContiguousIntegerSet)
    ensures
        total_size(s.push(a)) == total_size(s) + a.spec_size(),
    decreases s.len(),
{
    if s.len() == 0 {
        assert(s.push(a).drop_first() =~= Seq::empty());
        assert(s.push(a)[0] == a);
        assert(total_size(s.push(a)) == a.spec_size() + total_size(Seq::<
            ContiguousIntegerSet,
        >::empty()));
    } else {
        assert(s.push(a).drop_first() =~= s.drop_first().push(a));
        lemma_total_size_push(s.drop_first(), a);
        assert(s.push(a)[0] == s[0]);
        assert(total_size(s.push(a)) == s[0].spec_size() + total_size(s.drop_first().push(a)));
    }
}

/// An interval's `seq_of` lists exactly the integers it contains.
pub proof fn lemma_seq_of_contains(a: ContiguousIntegerSet)
    ensures
        forall|x: int| a.seq_of().contains(x) <==> a.spec_contains(x),
{
    assert forall|x: int| a.seq_of().contains(x) <==> a.spec_contains(x) by {
        if a.spec_contains(x) {
            assert(a.seq_of()[x - a.start] == x);
        }
        if a.seq_of().contains(x) {
            let k = choose|k: int| 0 <= k < a.seq_of().len() && a.seq_of()[k] == x;
            assert(a.seq_of()[k] == a.start + k);
        }
    }
}

/// Membership in a concatenation of element sequences.
proof fn lemma_seq_add_contains(a: Seq<int>, b: Seq<int>, x: int)
    ensures
        (a + b).contains(x) <==> a.contains(x) || b.contains(x),
{
    if a.contains(x) {
        let k = choose|k: int| 0 <= k < a.len() && a[k] == x;
        assert((a + b)[k] == x);
    }
    if b.contains(x) {
        let k = choose|k: int| 0 <= k < b.len() && b[k] == x;
        assert((a + b)[a.len() + k] == x);
    }
    if (a + b).contains(x) {
        let k = choose|k: int| 0 <= k < (a + b).len() && (a + b)[k] == x;
        if k < a.len() {
            assert(a[k] == x);
        } else {
            assert(b[k - a.len()] == x);
        }
    }
}

/// An integer is listed by `elems` exactly when some interval contains it.
pub proof fn lemma_elems_contains(s: Seq<ContiguousIntegerSet>, x: int)
    ensures
        elems(s).contains(x) <==> seq_contains(s, x),
    decreases s.len(),
{
    if s.len() == 0 {
    } else {
        lemma_elems_contains(s.drop_first(), x);
        lemma_seq_of_contains(s[0]);
        lemma_seq_add_contains(s[0].seq_of(), elems(s.drop_first()), x);
        assert(seq_contains(s, x) <==> s[0].spec_contains(x) || seq_contains(
            s.drop_first(),
            x,
        )) by {
            if seq_contains(s, x) {
                let i = choose|i: int| 0 <= i < s.len() && #[trigger] s[i].spec_contains(x);
                if i > 0 {
                    assert(s.drop_first()[i - 1].spec_contains(x));
                }
            }
            if seq_contains(s.drop_first(), x) {
                let i = choose|i: int|
                    0 <= i < s.drop_first().len() && #[trigger] s.drop_first()[i].spec_contains(x);
                assert(s[i + 1].spec_contains(x));
            }
            if s[0].spec_contains(x) {
                assert(s[0].spec_contains(x) && 0 < s.len());
            }
        }
    }
}

/// Membership after appending one interval.
pub proof fn lemma_seq_contains_push(s: Seq<ContiguousIntegerSet>, a: ContiguousIntegerSet, x: int)
    ensures
        seq_contains(s.push(a), x) <==> seq_contains(s, x) || a.spec_contains(x),
{
    if seq_contains(s, x) {
        let i = choose|i: int| 0 <= i < s.len() && #[trigger] s[i].spec_contains(x);
        assert(s.push(a)[i].spec_contains(x));
    }
    if a.spec_contains(x) {
        assert(s.push(a)[s.len() as int].spec_contains(x));
    }
    if seq_contains(s.push(a), x) {
        let i = choose|i: int|
            0 <= i < s.push(a).len() && #[trigger] s.push(a)[i].spec_contains(x);
        if i < s.len() {
            assert(s[i].spec_contains(x));
        }
    }
}

/// Membership in a concatenation of interval sequences.
pub proof fn lemma_seq_contains_add(
    s1: Seq<ContiguousIntegerSet>,
    s2: Seq<ContiguousIntegerSet>,
    x: int,
)
    ensures
        seq_contains(s1 + s2, x) <==> seq_contains(s1, x) || seq_contains(s2, x),
{
    if seq_contains(s1, x) {
        let i = choose|i: int| 0 <= i < s1.len() && #[trigger] s1[i].spec_contains(x);
        assert((s1 + s2)[i].spec_contains(x));
    }
    if seq_contains(s2, x) {
        let i = choose|i: int| 0 <= i < s2.len() && #[trigger] s2[i].spec_contains(x);
        assert((s1 + s2)[s1.len() + i].spec_contains(x));
    }
    if seq_contains(s1 + s2, x) {
        let i = choose|i: int| 0 <= i < (s1 + s2).len() && #[trigger] (s1 + s2)[i].spec_contains(x);
        if i < s1.len() {
            assert(s1[i].spec_contains(x));
        } else {
            assert(s2[i - s1.len()].spec_contains(x));
        }
    }
}

/// Membership after inserting one interval at position `k`.
pub proof fn lemma_seq_contains_insert(
    s: Seq<ContiguousIntegerSet>,
    k: int,
    a: ContiguousIntegerSet,
    x: int,
)
    requires
        0 <= k <= s.len(),
    ensures
        seq_contains(s.insert(k, a), x) <==> seq_contains(s, x) || a.spec_contains(x),
{
    let t = s.insert(k, a);
    if seq_contains(s, x) {
        let i = choose|i: int| 0 <= i < s.len() && #[trigger] s[i].spec_contains(x);
        if i < k {
            assert(t[i].spec_contains(x));
        } else {
            assert(t[i + 1].spec_contains(x));
        }
    }
    if a.spec_contains(x) {
        assert(t[k].spec_contains(x));
    }
    if seq_contains(t, x) {
        let i = choose|i: int| 0 <= i < t.len() && #[trigger] t[i].spec_contains(x);
        if i < k {
            assert(s[i].spec_contains(x));
        } else if i > k {
            assert(s[i - 1].spec_contains(x));
        }
    }
}

/// `total_size` splits across any cut point.
pub proof fn lemma_total_size_split(s: Seq<ContiguousIntegerSet>, k: int)
    requires
        0 <= k <= s.len(),
    ensures
        total_size(s) == total_size(s.subrange(0, k)) + total_size(s.subrange(k, s.len() as int)),
    decreases s.len() - k,
{
    if k == s.len() {
        assert(s.subrange(0, k) =~= s);
        assert(s.subrange(k, s.len() as int) =~= Seq::empty());
    } else {
        lemma_total_size_split(s, k + 1);
        assert(s.subrange(0, k + 1) =~= s.subrange(0, k).push(s[k]));
        lemma_total_size_push(s.subrange(0, k), s[k]);
        let t = s.subrange(k, s.len() as int);
        assert(t[0] == s[k]);
        assert(t.drop_first() =~= s.subrange(k + 1, s.len() as int));
    }
}

/// A canonical sequence whose members all lie in `[lo, hi]` denotes at most
/// `hi - lo + 1` integers.  This lets a caller bound a set's size from the
/// membership guarantees of the constructor that built it.
pub proof fn lemma_total_size_bounded(s: Seq<ContiguousIntegerSet>, lo: int, hi: int)
    requires
        canonical(s),
        forall|x: int| seq_contains(s, x) ==> lo <= x <= hi,
    ensures
        total_size(s) <= if hi >= lo {
            hi - lo + 1
        } else {
            0
        },
    decreases s.len(),
{
    if s.len() == 0 {
    } else {
        let first = s[0];
        assert(first.spec_contains(first.start as int) && first.spec_contains(first.end as int));
        assert(seq_contains(s, first.start as int));
        assert(seq_contains(s, first.end as int));
        lemma_canonical_drop_first(s);
        let t = s.drop_first();
        assert forall|x: int| seq_contains(t, x) implies first.end + 2 <= x <= hi by {
            let i = choose|i: int| 0 <= i < t.len() && #[trigger] t[i].spec_contains(x);
            assert(t[i] == s[i + 1]);
            assert(s[i + 1].spec_contains(x));
            lemma_canonical_gap(s, 0, i + 1);
            assert(seq_contains(s, x));
        }
        lemma_total_size_bounded(t, first.end + 2, hi);
    }
}

/// `elems` splits across any cut point.
pub proof fn lemma_elems_split(s: Seq<ContiguousIntegerSet>, k: int)
    requires
        0 <= k <= s.len(),
    ensures
        elems(s) == elems(s.subrange(0, k)) + elems(s.subrange(k, s.len() as int)),
    decreases s.len() - k,
{
    if k == s.len() {
        assert(s.subrange(0, k) =~= s);
        assert(s.subrange(k, s.len() as int) =~= Seq::empty());
        assert(elems(s) =~= elems(s) + elems(Seq::empty()));
    } else {
        lemma_elems_split(s, k + 1);
        assert(s.subrange(0, k + 1) =~= s.subrange(0, k).push(s[k]));
        lemma_elems_push(s.subrange(0, k), s[k]);
        let t = s.subrange(k, s.len() as int);
        assert(t[0] == s[k]);
        assert(t.drop_first() =~= s.subrange(k + 1, s.len() as int));
        assert(elems(t) == s[k].seq_of() + elems(s.subrange(k + 1, s.len() as int)));
        assert((elems(s.subrange(0, k)) + s[k].seq_of()) + elems(
            s.subrange(k + 1, s.len() as int),
        ) =~= elems(s.subrange(0, k)) + (s[k].seq_of() + elems(s.subrange(k + 1, s.len() as int))));
    }
}

/// The `idx`-th interval's integers occupy the window of `elems` that starts
/// at the total size of the preceding intervals.
pub proof fn lemma_elems_window(s: Seq<ContiguousIntegerSet>, idx: int)
    requires
        0 <= idx < s.len(),
    ensures
        0 <= total_size(s.subrange(0, idx)),
        total_size(s.subrange(0, idx)) + s[idx].spec_size() <= elems(s).len(),
        s[idx].seq_of() == elems(s).subrange(
            total_size(s.subrange(0, idx)),
            total_size(s.subrange(0, idx)) + s[idx].spec_size(),
        ),
{
    let p = total_size(s.subrange(0, idx));
    lemma_total_size_nonneg(s.subrange(0, idx));
    lemma_elems_split(s, idx);
    lemma_elems_len(s.subrange(0, idx));
    let t = s.subrange(idx, s.len() as int);
    assert(t[0] == s[idx]);
    assert(t.drop_first() =~= s.subrange(idx + 1, s.len() as int));
    assert(elems(t) == s[idx].seq_of() + elems(s.subrange(idx + 1, s.len() as int)));
    lemma_elems_len(s);
    lemma_elems_len(t);
    lemma_total_size_nonneg(s.subrange(idx + 1, s.len() as int));
    lemma_elems_len(s.subrange(idx + 1, s.len() as int));
    assert(s[idx].seq_of() =~= elems(s).subrange(p, p + s[idx].spec_size()));
}

/// Dropping the first interval of a canonical sequence leaves a canonical
/// sequence.
pub proof fn lemma_canonical_drop_first(s: Seq<ContiguousIntegerSet>)
    requires
        canonical(s),
        s.len() > 0,
    ensures
        canonical(s.drop_first()),
{
    let t = s.drop_first();
    assert forall|i: int| 0 <= i < t.len() implies !(#[trigger] t[i]).spec_is_empty() by {
        assert(t[i] == s[i + 1]);
    }
    assert forall|i: int| 0 <= i && i + 1 < t.len() implies (#[trigger] t[i]).end + 1 < t[i
        + 1].start by {
        assert(t[i] == s[i + 1] && t[i + 1] == s[i + 2]);
    }
}

/// In a canonical sequence, the tail holds exactly the elements beyond the
/// first interval's `end`.
pub proof fn lemma_canonical_contains_tail(s: Seq<ContiguousIntegerSet>, x: int)
    requires
        canonical(s),
        s.len() > 0,
    ensures
        seq_contains(s.drop_first(), x) <==> seq_contains(s, x) && x > s[0].end,
{
    let t = s.drop_first();
    if seq_contains(t, x) {
        let i = choose|i: int| 0 <= i < t.len() && #[trigger] t[i].spec_contains(x);
        assert(t[i] == s[i + 1]);
        assert(s[i + 1].spec_contains(x));
        lemma_canonical_gap(s, 0, i + 1);
    }
    if seq_contains(s, x) && x > s[0].end {
        let i = choose|i: int| 0 <= i < s.len() && #[trigger] s[i].spec_contains(x);
        assert(i != 0);
        assert(t[i - 1].spec_contains(x));
    }
}

/// The first `start` of a canonical sequence is at most as large as the
/// first `start` of any canonical sequence denoting a superset.
proof fn lemma_canonical_first_start_le(s1: Seq<ContiguousIntegerSet>, s2: Seq<ContiguousIntegerSet>)
    requires
        canonical(s1),
        canonical(s2),
        s1.len() > 0,
        s2.len() > 0,
        forall|x: int| seq_contains(s1, x) ==> seq_contains(s2, x),
    ensures
        s2[0].start <= s1[0].start,
{
    assert(s1[0].spec_contains(s1[0].start as int));
    assert(seq_contains(s1, s1[0].start as int));
    let i = choose|i: int| 0 <= i < s2.len() && #[trigger] s2[i].spec_contains(s1[0].start as int);
    if i > 0 {
        lemma_canonical_gap(s2, 0, i);
    }
}

/// Two canonical sequences with the same elements have the same first
/// interval.
proof fn lemma_canonical_first_equal(s1: Seq<ContiguousIntegerSet>, s2: Seq<ContiguousIntegerSet>)
    requires
        canonical(s1),
        canonical(s2),
        s1.len() > 0,
        forall|x: int| seq_contains(s1, x) <==> seq_contains(s2, x),
    ensures
        s2.len() > 0,
        s1[0] == s2[0],
{
    assert(s1[0].spec_contains(s1[0].start as int));
    assert(seq_contains(s1, s1[0].start as int));
    assert(s2.len() > 0);
    lemma_canonical_first_start_le(s1, s2);
    lemma_canonical_first_start_le(s2, s1);
    assert(s1[0].end == s2[0].end) by {
        if s1[0].end < s2[0].end {
            let y = s1[0].end + 1;
            assert(s2[0].spec_contains(y));
            assert(seq_contains(s2, y));
            assert(!seq_contains(s1, y)) by {
                if seq_contains(s1, y) {
                    let i = choose|i: int| 0 <= i < s1.len() && #[trigger] s1[i].spec_contains(y);
                    assert(i != 0);
                    lemma_canonical_gap(s1, 0, i);
                }
            }
            assert(false);
        }
        if s2[0].end < s1[0].end {
            let y = s2[0].end + 1;
            assert(s1[0].spec_contains(y));
            assert(seq_contains(s1, y));
            assert(!seq_contains(s2, y)) by {
                if seq_contains(s2, y) {
                    let i = choose|i: int| 0 <= i < s2.len() && #[trigger] s2[i].spec_contains(y);
                    assert(i != 0);
                    lemma_canonical_gap(s2, 0, i);
                }
            }
            assert(false);
        }
    }
}

/// Canonical form is unique: two canonical sequences denoting the same
/// integer set are the same sequence.  In particular, coalescing a set that
/// is already canonical cannot change it.
pub proof fn lemma_canonical_unique(s1: Seq<ContiguousIntegerSet>, s2: Seq<ContiguousIntegerSet>)
    requires
        canonical(s1),
        canonical(s2),
        forall|x: int| seq_contains(s1, x) <==> seq_contains(s2, x),
    ensures
        s1 == s2,
    decreases s1.len(),
{
    if s1.len() == 0 {
        if s2.len() > 0 {
            assert(s2[0].spec_contains(s2[0].start as int));
            assert(seq_contains(s2, s2[0].start as int));
            assert(false);
        }
        assert(s1 =~= s2);
    } else {
        lemma_canonical_first_equal(s1, s2);
        lemma_canonical_drop_first(s1);
        lemma_canonical_drop_first(s2);
        assert forall|x: int|
            seq_contains(s1.drop_first(), x) <==> seq_contains(s2.drop_first(), x) by {
            lemma_canonical_contains_tail(s1, x);
            lemma_canonical_contains_tail(s2, x);
        }
        lemma_canonical_unique(s1.drop_first(), s2.drop_first());
        assert(s1 =~= s2) by {
            assert(s1.len() == s2.len());
            assert forall|i: int| 0 <= i < s1.len() implies s1[i] == s2[i] by {
                if i > 0 {
                    assert(s1.drop_first()[i - 1] == s2.drop_first()[i - 1]);
                }
            }
        }
    }
}

/// In a canonical sequence every element lies between the first `start` and
/// the last `end`.
pub proof fn lemma_canonical_element_bounds(s: Seq<ContiguousIntegerSet>, x: int)
    requires
        canonical(s),
        seq_contains(s, x),
    ensures
        s.len() > 0,
        s[0].start <= x <= s.last().end,
{
    let i = choose|i: int| 0 <= i < s.len() && #[trigger] s[i].spec_contains(x);
    if i > 0 {
        lemma_canonical_gap(s, 0, i);
    }
    if i < s.len() - 1 {
        lemma_canonical_gap(s, i, s.len() - 1);
    }
}

} // verus!
