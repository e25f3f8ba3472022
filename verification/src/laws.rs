//! General laws of the interval algebra, stated over the same spec functions
//! that the executable operations' contracts use.

use vstd::prelude::*;

use crate::contiguous_integer_set::ContiguousIntegerSet;
use crate::model::canonical;
use crate::model::elems;
use crate::model::lemma_canonical_unique;
use crate::model::lemma_elems_len;
use crate::model::seq_contains;
use crate::model::total_size;
use crate::slicing::min_int;

verus! {

/// Coalescing is idempotent.  A coalescing pass guarantees a canonical
/// interval sequence denoting the same integers; because the canonical form
/// of an integer set is unique, coalescing the result once more gives back
/// the very same sequence (`coalesce(coalesce(v)) == coalesce(v)`).
pub proof fn lemma_coalesce_idempotent(
    v: Seq<ContiguousIntegerSet>,
    once: Seq<ContiguousIntegerSet>,
    twice: Seq<ContiguousIntegerSet>,
)
    requires
        canonical(once),
        forall|x: int| seq_contains(once, x) <==> seq_contains(v, x),
        canonical(twice),
        forall|x: int| seq_contains(twice, x) <==> seq_contains(once, x),
    ensures
        twice == once,
{
    lemma_canonical_unique(twice, once);
}

/// Coalescing two intervals is symmetric: `a.coalesce_with(b)` and
/// `b.coalesce_with(a)` agree on every pair of intervals.
pub proof fn lemma_coalesce_symmetric(a: ContiguousIntegerSet, b: ContiguousIntegerSet)
    ensures
        ContiguousIntegerSet::spec_coalesce(a, b) == ContiguousIntegerSet::spec_coalesce(b, a),
{
}

/// Subtraction and intersection partition an interval: every integer of `a`
/// lies in exactly one of `a` minus `b` (which holds the integers of `a`
/// outside `b`) and `a` intersected with `b`, and those two parts share no
/// integer.
pub proof fn lemma_subtract_intersect_partition(
    a: ContiguousIntegerSet,
    b: ContiguousIntegerSet,
    x: int,
)
    ensures
        ({
            let in_difference = a.spec_contains(x) && !b.spec_contains(x);
            let in_intersection = match ContiguousIntegerSet::spec_intersect(a, b) {
                Some(m) => m.spec_contains(x),
                None => false,
            };
            (in_difference || in_intersection) == a.spec_contains(x) && !(in_difference
                && in_intersection)
        }),
{
}

/// A set's cardinality equals the length of its element listing, which is
/// what a full iteration of the set produces, and that listing holds exactly
/// the set's members: building a set and then walking its elements one by
/// one round-trips to `size` and to membership.
pub proof fn lemma_size_is_iteration_count(s: Seq<ContiguousIntegerSet>)
    ensures
        total_size(s) == elems(s).len(),
        forall|x: int| elems(s).contains(x) <==> seq_contains(s, x),
{
    lemma_elems_len(s);
    assert forall|x: int| elems(s).contains(x) <==> seq_contains(s, x) by {
        crate::model::lemma_elems_contains(s, x);
    }
}

/// A canonical set's element listing is strictly ascending, so a full
/// iteration produces each member exactly once, in increasing order.
pub proof fn lemma_iteration_ascending(s: Seq<ContiguousIntegerSet>)
    requires
        canonical(s),
    ensures
        forall|i: int, j: int|
            0 <= i < j < elems(s).len() ==> #[trigger] elems(s)[i] < #[trigger] elems(s)[j],
    decreases s.len(),
{
    if s.len() > 0 {
        crate::model::lemma_canonical_drop_first(s);
        lemma_iteration_ascending(s.drop_first());
        let a = s[0].seq_of();
        let b = elems(s.drop_first());
        assert forall|i: int, j: int|
            0 <= i < j < elems(s).len() implies #[trigger] elems(s)[i] < #[trigger] elems(s)[j] by {
            assert(elems(s) == a + b);
            if j < a.len() {
                assert(elems(s)[i] == a[i] && elems(s)[j] == a[j]);
            } else if i >= a.len() {
                assert(elems(s)[i] == b[i - a.len()] && elems(s)[j] == b[j - a.len()]);
            } else {
                assert(elems(s)[i] == a[i]);
                assert(elems(s)[j] == b[j - a.len()]);
                assert(a[i] <= s[0].end);
                let e = b[j - a.len()];
                assert(b.contains(e));
                crate::model::lemma_elems_contains(s.drop_first(), e);
                crate::model::lemma_canonical_contains_tail(s, e);
            }
        }
    }
}

/// Slicing by a valid rank range `[lo, hi)` yields a set of exactly
/// `hi - lo` integers: the slice's element listing is the corresponding
/// window of the source's listing.
pub proof fn lemma_slice_size(
    s: Seq<ContiguousIntegerSet>,
    r: Seq<ContiguousIntegerSet>,
    lo: int,
    hi: int,
)
    requires
        0 <= lo <= hi <= total_size(s),
        elems(r) == elems(s).subrange(min_int(lo, total_size(s)), min_int(hi, total_size(s))),
    ensures
        total_size(r) == hi - lo,
{
    lemma_elems_len(s);
    lemma_elems_len(r);
}

} // verus!
