//! An integer set kept as a minimal ordered sequence of disjoint,
//! non-adjacent closed intervals.

use vstd::prelude::*;

use crate::contiguous_integer_set::ContiguousIntegerSet;
use crate::model::canonical;
use crate::model::elems;
use crate::model::lemma_canonical_element_bounds;
use crate::model::lemma_canonical_unique;
use crate::model::lemma_seq_contains_insert;
use crate::model::lemma_seq_contains_push;
use crate::model::lemma_total_size_nonneg;
use crate::model::lemma_total_size_push;
use crate::model::lemma_total_size_split;
use crate::model::seq_contains;
use crate::model::sorted_by_start;
use crate::model::total_size;

verus! {

/// An arbitrary integer set in canonical form: an ascending sequence of
/// disjoint, non-adjacent, non-empty closed intervals.
#[derive(Debug)]
pub struct OrderedIntegerSet {
    intervals: Vec<ContiguousIntegerSet>,
}

impl Clone for OrderedIntegerSet {
    fn clone(&self) -> (r: Self)
        ensures
            r@ == self@,
    {
        let mut intervals: Vec<ContiguousIntegerSet> = Vec::new();
        let mut idx: usize = 0;
        while idx < self.intervals.len()
            invariant
                idx <= self.intervals@.len(),
                intervals@ == self.intervals@.subrange(0, idx as int),
            decreases self.intervals@.len() - idx,
        {
            intervals.push(self.intervals[idx]);
            proof {
                assert(self.intervals@.subrange(0, idx as int + 1) =~= self.intervals@.subrange(
                    0,
                    idx as int,
                ).push(self.intervals@[idx as int]));
            }
            idx += 1;
        }
        proof {
            assert(self.intervals@.subrange(0, self.intervals@.len() as int) =~= self.intervals@);
        }
        OrderedIntegerSet { intervals }
    }
}

impl View for OrderedIntegerSet {
    type V = Seq<ContiguousIntegerSet>;

    closed spec fn view(&self) -> Seq<ContiguousIntegerSet> {
        self.intervals@
    }
}

impl PartialEq for OrderedIntegerSet {
    /// Two sets are equal exactly when their interval sequences are equal.
    fn eq(&self, other: &Self) -> (r: bool) {
        let n = self.intervals.len();
        if n != other.intervals.len() {
            return false;
        }
        let mut i: usize = 0;
        while i < n
            invariant
                i <= n,
                n == self@.len() == other@.len(),
                self.intervals@ == self@,
                other.intervals@ == other@,
                forall|j: int| 0 <= j < i ==> self@[j] == other@[j],
            decreases n - i,
        {
            if !(self.intervals[i] == other.intervals[i]) {
                return false;
            }
            i += 1;
        }
        proof {
            assert(self@ =~= other@);
        }
        true
    }
}

impl vstd::std_specs::cmp::PartialEqSpecImpl for OrderedIntegerSet {
    open spec fn obeys_eq_spec() -> bool {
        true
    }

    open spec fn eq_spec(&self, other: &Self) -> bool {
        self@ == other@
    }
}

impl OrderedIntegerSet {
    /// The set is in canonical form.
    pub open spec fn wf(self) -> bool {
        canonical(self@)
    }

    /// The integer `x` belongs to the set.
    pub open spec fn spec_contains(self, x: int) -> bool {
        seq_contains(self@, x)
    }

    /// How many integers the set holds.
    pub open spec fn spec_size(self) -> int {
        total_size(self@)
    }
}

/// Inserts each interval of `v` into a fresh vector at its sorted position.
fn sort_intervals_by_start(v: &Vec<ContiguousIntegerSet>) -> (r: Vec<ContiguousIntegerSet>)
    ensures
        sorted_by_start(r@),
        forall|x: int| seq_contains(r@, x) <==> seq_contains(v@, x),
{
    let mut r: Vec<ContiguousIntegerSet> = Vec::new();
    let mut idx: usize = 0;
    while idx < v.len()
        invariant
            idx <= v.len(),
            sorted_by_start(r@),
            forall|x: int| seq_contains(r@, x) <==> seq_contains(v@.subrange(0, idx as int), x),
        decreases v.len() - idx,
    {
        let a = v[idx];
        let mut p: usize = 0;
        while p < r.len() && r[p].start <= a.start
            invariant
                p <= r.len(),
                forall|i: int| 0 <= i < p ==> (#[trigger] r@[i]).start <= a.start,
            decreases r.len() - p,
    {
            p += 1;
        }
        let ghost r0 = r@;
        r.insert(p, a);
        proof {
            assert(sorted_by_start(r@)) by {
                assert forall|i: int, j: int| 0 <= i <= j < r@.len() implies (#[trigger] r@[i]).start
                    <= (#[trigger] r@[j]).start by {
                    let pi = p as int;
                    if i < pi && j == pi {
                        assert(r@[i] == r0[i]);
                    } else if i == pi && j > pi {
                        assert(r@[j] == r0[j - 1]);
                        assert(r0[pi].start > a.start || pi == r0.len());
                        assert(r0[pi].start <= r0[j - 1].start);
                    } else if i < pi && j > pi {
                        assert(r@[i] == r0[i] && r@[j] == r0[j - 1]);
                    } else if i != pi && j != pi {
                        assert(r@[i] == r0[if i < pi { i } else { i - 1 }]);
                        assert(r@[j] == r0[if j < pi { j } else { j - 1 }]);
                    }
                }
            }
            assert(v@.subrange(0, idx as int + 1) =~= v@.subrange(0, idx as int).push(
                v@[idx as int],
            ));
            assert forall|x: int|
                seq_contains(r@, x) <==> seq_contains(v@.subrange(0, idx as int + 1), x) by {
                lemma_seq_contains_insert(r0, p as int, a, x);
                lemma_seq_contains_push(v@.subrange(0, idx as int), v@[idx as int], x);
            }
        }
        idx += 1;
    }
    proof {
        assert(v@.subrange(0, v@.len() as int) =~= v@);
    }
    r
}

/// One left-to-right pass over a sorted interval sequence, dropping empty
/// intervals and merging each interval into the previous one whenever the two
/// overlap or are adjacent.
fn coalesce_sorted(v: &Vec<ContiguousIntegerSet>) -> (r: Vec<ContiguousIntegerSet>)
    requires
        sorted_by_start(v@),
    ensures
        canonical(r@),
        forall|x: int| seq_contains(r@, x) <==> seq_contains(v@, x),
{
    let mut r: Vec<ContiguousIntegerSet> = Vec::new();
    let mut idx: usize = 0;
    while idx < v.len()
        invariant
            idx <= v.len(),
            sorted_by_start(v@),
            canonical(r@),
            forall|x: int| seq_contains(r@, x) <==> seq_contains(v@.subrange(0, idx as int), x),
            r@.len() > 0 ==> forall|j: int|
                idx <= j < v@.len() ==> r@.last().start <= (#[trigger] v@[j]).start,
        decreases v.len() - idx,
    {
        let a = v[idx];
        let ghost r0 = r@;
        if a.start > a.end {
            // an empty interval denotes no integer: drop it
        } else if r.len() == 0 {
            r.push(a);
            proof {
                assert forall|x: int|
                    seq_contains(r@, x) <==> seq_contains(r0, x) || a.spec_contains(x) by {
                    lemma_seq_contains_push(r0, a, x);
                }
            }
        } else {
            let n = r.len();
            let last = r[n - 1];
            if a.start as i128 <= last.end as i128 + 1 {
                let merged = ContiguousIntegerSet::new(
                    last.start,
                    if last.end >= a.end { last.end } else { a.end },
                );
                r.set(n - 1, merged);
                proof {
                    assert(canonical(r@)) by {
                        assert forall|i: int| 0 <= i && i + 1 < r@.len() implies (
                        #[trigger] r@[i]).end + 1 < r@[i + 1].start by {
                            if i + 1 < r@.len() - 1 {
                                assert(r@[i] == r0[i] && r@[i + 1] == r0[i + 1]);
                            } else {
                                assert(r@[i] == r0[i]);
                            }
                        }
                    }
                    assert(r0.last().start <= a.start);
                    assert forall|x: int|
                        seq_contains(r@, x) <==> seq_contains(r0, x) || a.spec_contains(x) by {
                        if seq_contains(r@, x) {
                            let i = choose|i: int|
                                0 <= i < r@.len() && #[trigger] r@[i].spec_contains(x);
                            if i < r@.len() - 1 {
                                assert(r0[i].spec_contains(x));
                            } else {
                                if x <= last.end {
                                    assert(r0[i].spec_contains(x));
                                } else {
                                    assert(a.spec_contains(x));
                                }
                            }
                        }
                        if seq_contains(r0, x) {
                            let i = choose|i: int|
                                0 <= i < r0.len() && #[trigger] r0[i].spec_contains(x);
                            assert(r@[i].spec_contains(x));
                        }
                        if a.spec_contains(x) {
                            assert(r@[r@.len() - 1].spec_contains(x));
                        }
                    }
                }
            } else {
                r.push(a);
                proof {
                    assert forall|x: int|
                        seq_contains(r@, x) <==> seq_contains(r0, x) || a.spec_contains(x) by {
                        lemma_seq_contains_push(r0, a, x);
                    }
                }
            }
        }
        proof {
            assert(v@.subrange(0, idx as int + 1) =~= v@.subrange(0, idx as int).push(
                v@[idx as int],
            ));
            assert forall|x: int|
                seq_contains(r@, x) <==> seq_contains(v@.subrange(0, idx as int + 1), x) by {
                lemma_seq_contains_push(v@.subrange(0, idx as int), v@[idx as int], x);
                assert(seq_contains(r@, x) <==> seq_contains(r0, x) || a.spec_contains(x));
            }
        }
        idx += 1;
    }
    proof {
        assert(v@.subrange(0, v@.len() as int) =~= v@);
    }
    r
}

/// Canonicalizes an arbitrary interval vector: drops empty intervals, sorts
/// by `start`, and merges overlapping or adjacent neighbours.
pub(crate) fn coalesce_intervals(v: &Vec<ContiguousIntegerSet>) -> (r: Vec<ContiguousIntegerSet>)
    ensures
        canonical(r@),
        forall|x: int| seq_contains(r@, x) <==> seq_contains(v@, x),
{
    let sorted = sort_intervals_by_start(v);
    coalesce_sorted(&sorted)
}

impl OrderedIntegerSet {
    /// The empty integer set.
    pub fn new() -> (s: OrderedIntegerSet)
        ensures
            s.wf(),
            s@ == Seq::<ContiguousIntegerSet>::empty(),
            forall|x: int| !s.spec_contains(x),
    {
        OrderedIntegerSet { intervals: Vec::new() }
    }

    /// Builds the set denoted by the given `[start, end]` pairs; the pairs
    /// may be unsorted, overlapping, or empty (`start > end`).
    pub fn from_slice(slice: &[[i64; 2]]) -> (s: OrderedIntegerSet)
        ensures
            s.wf(),
            forall|x: int|
                s.spec_contains(x) <==> exists|i: int|
                    0 <= i < slice@.len() && (#[trigger] slice@[i])[0] <= x <= slice@[i][1],
    {
        let mut v: Vec<ContiguousIntegerSet> = Vec::new();
        let mut idx: usize = 0;
        while idx < slice.len()
            invariant
                idx <= slice@.len(),
                v@.len() == idx,
                forall|i: int|
                    0 <= i < idx ==> (#[trigger] v@[i]) == (ContiguousIntegerSet {
                        start: slice@[i][0],
                        end: slice@[i][1],
                    }),
            decreases slice@.len() - idx,
        {
            let pair = slice[idx];
            v.push(ContiguousIntegerSet::new(pair[0], pair[1]));
            idx += 1;
        }
        let coalesced = coalesce_intervals(&v);
        proof {
            assert forall|x: int|
                seq_contains(v@, x) <==> exists|i: int|
                    0 <= i < slice@.len() && (#[trigger] slice@[i])[0] <= x <= slice@[i][1] by {
                if seq_contains(v@, x) {
                    let i = choose|i: int| 0 <= i < v@.len() && #[trigger] v@[i].spec_contains(x);
                    assert((slice@[i])[0] <= x <= slice@[i][1]);
                }
                if exists|i: int|
                    0 <= i < slice@.len() && (#[trigger] slice@[i])[0] <= x <= slice@[i][1] {
                    let i = choose|i: int|
                        0 <= i < slice@.len() && (#[trigger] slice@[i])[0] <= x <= slice@[i][1];
                    assert(v@[i].spec_contains(x));
                }
            }
        }
        OrderedIntegerSet { intervals: coalesced }
    }

    /// Builds the set denoted by the union of the given intervals, which may
    /// be unsorted, overlapping, or empty.
    pub fn from_contiguous_integer_sets(sets: Vec<ContiguousIntegerSet>) -> (s: OrderedIntegerSet)
        ensures
            s.wf(),
            forall|x: int| s.spec_contains(x) <==> seq_contains(sets@, x),
    {
        let coalesced = coalesce_intervals(&sets);
        OrderedIntegerSet { intervals: coalesced }
    }

    /// Wraps a vector that the caller asserts is already sorted and coalesced;
    /// no re-validation is performed.
    pub fn from_ordered_coalesced_contiguous_integer_sets(
        sets: Vec<ContiguousIntegerSet>,
    ) -> (s: OrderedIntegerSet)
        requires
            canonical(sets@),
        ensures
            s.wf(),
            s@ == sets@,
    {
        OrderedIntegerSet { intervals: sets }
    }

    /// The set denotes no integer at all.
    pub fn is_empty(&self) -> (r: bool)
        requires
            self.wf(),
        ensures
            r <==> self@.len() == 0,
            r <==> (forall|x: int| !self.spec_contains(x)),
    {
        proof {
            if self@.len() > 0 {
                assert(self@[0].spec_contains(self@[0].start as int));
                assert(self.spec_contains(self@[0].start as int));
            }
        }
        self.intervals.len() == 0
    }

    /// The integer `item` belongs to the set.
    pub fn contains(&self, item: i64) -> (r: bool)
        ensures
            r == self.spec_contains(item as int),
    {
        let n = self.intervals.len();
        if n > 0 {
            // cheap checks of the first and last interval, for append-heavy
            // callers
            if self.intervals[0].contains(item) {
                proof {
                    assert(self@[0].spec_contains(item as int));
                }
                return true;
            }
            if self.intervals[n - 1].contains(item) {
                proof {
                    assert(self@[n - 1].spec_contains(item as int));
                }
                return true;
            }
        }
        let mut i: usize = 0;
        while i < n
            invariant
                n == self@.len(),
                i <= n,
                forall|j: int| 0 <= j < i ==> !(#[trigger] self@[j]).spec_contains(item as int),
            decreases n - i,
        {
            if self.intervals[i].contains(item) {
                proof {
                    assert(self@[i as int].spec_contains(item as int));
                }
                return true;
            }
            i += 1;
        }
        false
    }

    /// The total number of integers in the set.
    pub fn size(&self) -> (r: usize)
        requires
            self.spec_size() <= usize::MAX,
        ensures
            r == self.spec_size(),
    {
        let mut total: usize = 0;
        let mut idx: usize = 0;
        while idx < self.intervals.len()
            invariant
                idx <= self.intervals@.len(),
                self.intervals@ == self@,
                total_size(self@) <= usize::MAX,
                total == total_size(self@.subrange(0, idx as int)),
            decreases self.intervals@.len() - idx,
        {
            proof {
                lemma_total_size_split(self@, idx as int);
                let suf = self@.subrange(idx as int, self@.len() as int);
                assert(suf[0] == self@[idx as int]);
                assert(suf.drop_first() =~= self@.subrange(idx as int + 1, self@.len() as int));
                lemma_total_size_nonneg(suf.drop_first());
                lemma_total_size_nonneg(self@.subrange(0, idx as int));
                lemma_total_size_split(self@, idx as int + 1);
                lemma_total_size_nonneg(self@.subrange(idx as int + 1, self@.len() as int));
                assert(self@.subrange(0, idx as int + 1) =~= self@.subrange(0, idx as int).push(
                    self@[idx as int],
                ));
                lemma_total_size_push(self@.subrange(0, idx as int), self@[idx as int]);
            }
            let sz = self.intervals[idx].size();
            total = total + sz;
            idx += 1;
        }
        proof {
            assert(self@.subrange(0, self@.len() as int) =~= self@);
        }
        total
    }

    /// The smallest element of the set, or `None` when the set is empty.
    pub fn first(&self) -> (r: Option<i64>)
        requires
            self.wf(),
        ensures
            match r {
                Some(m) => self.spec_contains(m as int) && forall|x: int|
                    self.spec_contains(x) ==> m as int <= x,
                None => forall|x: int| !self.spec_contains(x),
            },
    {
        if self.intervals.len() == 0 {
            None
        } else {
            let f = self.intervals[0];
            proof {
                assert(self@[0].spec_contains(f.start as int));
                assert forall|x: int| self.spec_contains(x) implies f.start as int <= x by {
                    lemma_canonical_element_bounds(self@, x);
                }
            }
            Some(f.start)
        }
    }

    /// The largest element of the set, or `None` when the set is empty.
    pub fn last(&self) -> (r: Option<i64>)
        requires
            self.wf(),
        ensures
            match r {
                Some(m) => self.spec_contains(m as int) && forall|x: int|
                    self.spec_contains(x) ==> x <= m as int,
                None => forall|x: int| !self.spec_contains(x),
            },
    {
        let n = self.intervals.len();
        if n == 0 {
            None
        } else {
            let l = self.intervals[n - 1];
            proof {
                assert(self@[n - 1].spec_contains(l.end as int));
                assert forall|x: int| self.spec_contains(x) implies x <= l.end as int by {
                    lemma_canonical_element_bounds(self@, x);
                }
            }
            Some(l.end)
        }
    }

    /// The smallest and the largest element, or `None` when the set is empty.
    pub fn first_and_last(&self) -> (r: Option<(i64, i64)>)
        requires
            self.wf(),
        ensures
            match r {
                Some(p) => self.spec_contains(p.0 as int) && self.spec_contains(p.1 as int)
                    && forall|x: int|
                    self.spec_contains(x) ==> p.0 as int <= x <= p.1 as int,
                None => forall|x: int| !self.spec_contains(x),
            },
    {
        if let Some(first) = self.first() {
            if let Some(last) = self.last() {
                return Some((first, last));
            }
        }
        None
    }

    /// Removes every empty interval, keeping the others in order.
    pub fn remove_empty_intervals(&mut self)
        ensures
            final(self)@ == old(self)@.filter(|a: ContiguousIntegerSet| !a.spec_is_empty()),
            old(self).wf() ==> final(self)@ == old(self)@,
    {
        let ghost pred = |a: ContiguousIntegerSet| !a.spec_is_empty();
        let mut kept: Vec<ContiguousIntegerSet> = Vec::new();
        let mut idx: usize = 0;
        proof {
            reveal(Seq::filter);
        }
        while idx < self.intervals.len()
            invariant
                idx <= self.intervals@.len(),
                self.intervals@ == old(self)@,
                kept@ == old(self)@.subrange(0, idx as int).filter(pred),
                canonical(old(self)@) ==> kept@ == old(self)@.subrange(0, idx as int),
                pred == (|a: ContiguousIntegerSet| !a.spec_is_empty()),
            decreases self.intervals@.len() - idx,
        {
            let a = self.intervals[idx];
            proof {
                assert(old(self)@.subrange(0, idx as int + 1) =~= old(self)@.subrange(
                    0,
                    idx as int,
                ).push(a));
                old(self)@.subrange(0, idx as int).lemma_filter_push(a, pred);
            }
            if a.start <= a.end {
                kept.push(a);
            }
            idx += 1;
        }
        proof {
            reveal(Seq::filter);
            assert(old(self)@.subrange(0, old(self)@.len() as int) =~= old(self)@);
        }
        self.intervals = kept;
    }

    /// A copy of the set with every empty interval removed.
    pub fn to_non_empty_intervals(&self) -> (r: Self)
        ensures
            r@ == self@.filter(|a: ContiguousIntegerSet| !a.spec_is_empty()),
            self.wf() ==> r@ == self@,
    {
        self.clone().into_non_empty_intervals()
    }

    /// The set with every empty interval removed.
    pub fn into_non_empty_intervals(self) -> (r: Self)
        ensures
            r@ == self@.filter(|a: ContiguousIntegerSet| !a.spec_is_empty()),
            self.wf() ==> r@ == self@,
    {
        let mut s = self;
        s.remove_empty_intervals();
        s
    }

    /// The member intervals in canonical form.  As the set is kept canonical,
    /// this is a copy of the member intervals themselves.
    pub fn to_coalesced_intervals(&self) -> (r: Vec<ContiguousIntegerSet>)
        ensures
            canonical(r@),
            forall|x: int| seq_contains(r@, x) <==> self.spec_contains(x),
            self.wf() ==> r@ == self@,
    {
        let r = coalesce_intervals(&self.intervals);
        proof {
            if self.wf() {
                lemma_canonical_unique(r@, self@);
            }
        }
        r
    }

    /// Re-canonicalizes the member intervals in place.  Coalescing is
    /// idempotent: on a set that is already canonical it changes nothing.
    pub fn coalesce_intervals_inplace(&mut self)
        ensures
            final(self).wf(),
            forall|x: int| final(self).spec_contains(x) <==> old(self).spec_contains(x),
            old(self).wf() ==> final(self)@ == old(self)@,
    {
        let r = coalesce_intervals(&self.intervals);
        proof {
            if old(self).wf() {
                lemma_canonical_unique(r@, old(self)@);
            }
        }
        self.intervals = r;
    }

    /// Pairwise intersection with another set.
    pub fn intersect(&self, other: &OrderedIntegerSet) -> (r: OrderedIntegerSet)
        ensures
            r.wf(),
            forall|x: int|
                r.spec_contains(x) <==> self.spec_contains(x) && other.spec_contains(x),
    {
        let mut v: Vec<ContiguousIntegerSet> = Vec::new();
        let n = self.intervals.len();
        let m = other.intervals.len();
        let mut i: usize = 0;
        while i < n
            invariant
                i <= n,
                n == self@.len(),
                m == other@.len(),
                self.intervals@ == self@,
                other.intervals@ == other@,
                forall|x: int|
                    seq_contains(v@, x) <==> exists|k: int|
                        0 <= k < i && (#[trigger] self@[k]).spec_contains(x) && seq_contains(
                            other@,
                            x,
                        ),
            decreases n - i,
        {
            let a = self.intervals[i];
            let mut j: usize = 0;
            while j < m
                invariant
                    j <= m,
                    i < n,
                    n == self@.len(),
                    m == other@.len(),
                    self.intervals@ == self@,
                    other.intervals@ == other@,
                    a == self@[i as int],
                    forall|x: int|
                        seq_contains(v@, x) <==> (exists|k: int|
                            0 <= k < i && (#[trigger] self@[k]).spec_contains(x) && seq_contains(
                                other@,
                                x,
                            )) || (self@[i as int].spec_contains(x) && exists|k: int|
                            0 <= k < j && (#[trigger] other@[k]).spec_contains(x)),
                decreases m - j,
            {
                let ghost v0 = v@;
                let b = other.intervals[j];
                match a.intersect(&b) {
                    Some(c) => {
                        v.push(c);
                    },
                    None => {},
                }
                proof {
                    assert forall|x: int|
                        seq_contains(v@, x) <==> (exists|k: int|
                            0 <= k < i && (#[trigger] self@[k]).spec_contains(x) && seq_contains(
                                other@,
                                x,
                            )) || (self@[i as int].spec_contains(x) && exists|k: int|
                            0 <= k < j + 1 && (#[trigger] other@[k]).spec_contains(x)) by {
                        if v@ != v0 {
                            lemma_seq_contains_push(v0, v@.last(), x);
                        }
                        if self@[i as int].spec_contains(x) && exists|k: int|
                            0 <= k < j + 1 && (#[trigger] other@[k]).spec_contains(x) {
                            let k = choose|k: int|
                                0 <= k < j + 1 && (#[trigger] other@[k]).spec_contains(x);
                            if k == j {
                                assert(a.spec_contains(x) && b.spec_contains(x));
                            }
                        }
                    }
                }
                j += 1;
            }
            proof {
                assert forall|x: int|
                    seq_contains(v@, x) <==> exists|k: int|
                        0 <= k < i + 1 && (#[trigger] self@[k]).spec_contains(x) && seq_contains(
                            other@,
                            x,
                        ) by {
                    if self@[i as int].spec_contains(x) && exists|k: int|
                        0 <= k < m && (#[trigger] other@[k]).spec_contains(x) {
                        assert(seq_contains(other@, x));
                    }
                    if seq_contains(other@, x) {
                        let k = choose|k: int|
                            0 <= k < other@.len() && #[trigger] other@[k].spec_contains(x);
                        assert(0 <= k < m && other@[k].spec_contains(x));
                    }
                }
            }
            i += 1;
        }
        let coalesced = coalesce_intervals(&v);
        proof {
            assert forall|x: int|
                seq_contains(coalesced@, x) <==> seq_contains(self@, x) && seq_contains(
                    other@,
                    x,
                ) by {
                if seq_contains(self@, x) && seq_contains(other@, x) {
                    let k = choose|k: int|
                        0 <= k < self@.len() && #[trigger] self@[k].spec_contains(x);
                    assert(0 <= k < n && self@[k].spec_contains(x) && seq_contains(other@, x));
                }
            }
        }
        OrderedIntegerSet { intervals: coalesced }
    }

    /// Inserts a single integer while keeping the set canonical.  The point
    /// may extend an interval, bridge two intervals into one, or become a new
    /// singleton interval at its sorted position.  A point to the right of,
    /// or coalesceable with, the last interval is handled without a scan.
    #[verifier::rlimit(100)]
    pub fn collect(&mut self, item: i64)
        requires
            old(self).wf(),
        ensures
            final(self).wf(),
            forall|x: int|
                final(self).spec_contains(x) <==> old(self).spec_contains(x) || x == item as int,
    {
        let n = self.intervals.len();
        if n > 0 {
            let last = self.intervals[n - 1];
            if item as i128 > last.end as i128 + 1 {
                self.intervals.push(ContiguousIntegerSet::new(item, item));
                proof {
                    let s = old(self)@;
                    assert forall|x: int|
                        seq_contains(self@, x) <==> seq_contains(old(self)@, x) || x
                            == item as int by {
                        lemma_seq_contains_push(s, self@.last(), x);
                    }
                    assert(canonical(self@)) by {
                        assert forall|i: int|
                            0 <= i && i + 1 < self@.len() implies (#[trigger] self@[i]).end + 1
                            < self@[i + 1].start by {
                            if i + 1 < s.len() {
                                assert(self@[i] == s[i] && self@[i + 1] == s[i + 1]);
                            } else {
                                assert(self@[i] == last);
                            }
                        }
                    }
                }
                return ;
            }
            // item <= last.end + 1 from here on
            match last.coalesce_with_point(item) {
                Some(merged) => {
                    let bridges_previous = n >= 2 && merged.start as i128 <= self.intervals[n
                        - 2].end as i128 + 1;
                    if !bridges_previous {
                        self.intervals.set(n - 1, merged);
                        proof {
                            let s = old(self)@;
                            let t = self@;
                            assert(canonical(t)) by {
                                assert forall|i: int|
                                    0 <= i && i + 1 < t.len() implies (#[trigger] t[i]).end + 1
                                    < t[i + 1].start by {
                                    if i + 1 < t.len() - 1 {
                                        assert(t[i] == s[i] && t[i + 1] == s[i + 1]);
                                    } else {
                                        assert(t[i] == s[i]);
                                    }
                                }
                            }
                            assert forall|x: int|
                                seq_contains(self@, x) <==> seq_contains(old(self)@, x) || x
                                    == item as int by {
                                if seq_contains(t, x) {
                                    let i = choose|i: int|
                                        0 <= i < t.len() && #[trigger] t[i].spec_contains(x);
                                    if i < t.len() - 1 {
                                        assert(s[i].spec_contains(x));
                                    } else {
                                        assert(merged.spec_contains(x));
                                        if x != item as int {
                                            assert(last.spec_contains(x));
                                        }
                                    }
                                }
                                if seq_contains(s, x) {
                                    let i = choose|i: int|
                                        0 <= i < s.len() && #[trigger] s[i].spec_contains(x);
                                    assert(t[i].spec_contains(x));
                                }
                                if x == item as int {
                                    assert(t[t.len() - 1].spec_contains(x));
                                }
                            }
                        }
                        return ;
                    }
                },
                None => {},
            }
        }
        // general scan: find the interval that absorbs the point, or the
        // position where a new singleton interval belongs
        let ghost s = old(self)@;
        let mut i: usize = 0;
        while i < n
            invariant
                s == old(self)@,
                self.intervals@ == s,
                self@ == s,
                canonical(s),
                n == s.len(),
                i <= n,
                forall|j: int| 0 <= j < i ==> item as int > (#[trigger] s[j]).end + 1,
            decreases n - i,
        {
            let interval = self.intervals[i];
            if (item as i128) + 1 < interval.start as i128 {
                self.intervals.insert(i, ContiguousIntegerSet::new(item, item));
                proof {
                    let t = self@;
                    assert(t == s.insert(i as int, ContiguousIntegerSet { start: item, end: item }));
                    assert forall|x: int|
                        seq_contains(self@, x) <==> seq_contains(s, x) || x == item as int by {
                        lemma_seq_contains_insert(
                            s,
                            i as int,
                            ContiguousIntegerSet { start: item, end: item },
                            x,
                        );
                    }
                    assert(canonical(t)) by {
                        assert forall|k: int|
                            0 <= k && k + 1 < t.len() implies (#[trigger] t[k]).end + 1 < t[k
                            + 1].start by {
                            let ii = i as int;
                            if k + 1 < ii {
                                assert(t[k] == s[k] && t[k + 1] == s[k + 1]);
                            } else if k + 1 == ii {
                                assert(t[k] == s[k]);
                            } else if k == ii {
                                assert(t[k + 1] == s[k]);
                            } else {
                                assert(t[k] == s[k - 1] && t[k + 1] == s[k]);
                            }
                        }
                        assert forall|k: int| 0 <= k < t.len() implies !(
                        #[trigger] t[k]).spec_is_empty() by {
                            let ii = i as int;
                            if k < ii {
                                assert(t[k] == s[k]);
                            } else if k > ii {
                                assert(t[k] == s[k - 1]);
                            }
                        }
                    }
                    assert forall|x: int|
                        seq_contains(self@, x) <==> seq_contains(old(self)@, x) || x
                            == item as int by {
                        assert(seq_contains(self@, x) <==> seq_contains(s, x) || x == item as int);
                    }
                }
                return ;
            }
            match interval.coalesce_with_point(item) {
                Some(new_interval) => {
                    self.intervals.set(i, new_interval);
                    if i + 1 < n {
                        let next = self.intervals[i + 1];
                        match new_interval.coalesce_with(&next) {
                            Some(bridged) => {
                                self.intervals.set(i, bridged);
                                self.intervals.remove(i + 1);
                                proof {
                                    let ii = i as int;
                                    let t = self@;
                                    assert(t == s.update(ii, bridged).remove(ii + 1));
                                    assert(bridged.start == new_interval.start && bridged.end
                                        == next.end);
                                    assert forall|x: int|
                                        seq_contains(self@, x) <==> seq_contains(s, x) || x
                                            == item as int by {
                                        if seq_contains(t, x) {
                                            let k = choose|k: int|
                                                0 <= k < t.len() && #[trigger] t[k].spec_contains(
                                                    x,
                                                );
                                            if k < ii {
                                                assert(s[k].spec_contains(x));
                                            } else if k == ii {
                                                if x <= new_interval.end {
                                                    if x != item as int {
                                                        assert(s[ii].spec_contains(x));
                                                    }
                                                } else {
                                                    assert(s[ii + 1].spec_contains(x));
                                                }
                                            } else {
                                                assert(s[k + 1].spec_contains(x));
                                            }
                                        }
                                        if seq_contains(s, x) {
                                            let k = choose|k: int|
                                                0 <= k < s.len() && #[trigger] s[k].spec_contains(
                                                    x,
                                                );
                                            if k < ii {
                                                assert(t[k].spec_contains(x));
                                            } else if k == ii || k == ii + 1 {
                                                assert(t[ii].spec_contains(x));
                                            } else {
                                                assert(t[k - 1].spec_contains(x));
                                            }
                                        }
                                        if x == item as int {
                                            assert(t[ii].spec_contains(x));
                                        }
                                    }
                                    assert(canonical(t)) by {
                                        assert forall|k: int|
                                            0 <= k && k + 1 < t.len() implies (
                                        #[trigger] t[k]).end + 1 < t[k + 1].start by {
                                            if k + 1 < ii {
                                                assert(t[k] == s[k] && t[k + 1] == s[k + 1]);
                                            } else if k + 1 == ii {
                                                assert(t[k] == s[k]);
                                            } else if k == ii {
                                                assert(t[k + 1] == s[k + 2]);
                                            } else {
                                                assert(t[k] == s[k + 1] && t[k + 1] == s[k + 2]);
                                            }
                                        }
                                        assert forall|k: int| 0 <= k < t.len() implies !(
                                        #[trigger] t[k]).spec_is_empty() by {
                                            if k < ii {
                                                assert(t[k] == s[k]);
                                            } else if k > ii {
                                                assert(t[k] == s[k + 1]);
                                            }
                                        }
                                    }
                                    assert forall|x: int|
                                        seq_contains(self@, x) <==> seq_contains(
                                            old(self)@,
                                            x,
                                        ) || x == item as int by {
                                        assert(seq_contains(self@, x) <==> seq_contains(s, x)
                                            || x == item as int);
                                    }
                                }
                                return ;
                            },
                            None => {},
                        }
                    }
                    {
                        proof {
                            let ii = i as int;
                            let t = self@;
                            assert(t == s.update(ii, new_interval));
                            if ii + 1 < s.len() {
                                // the merged interval still leaves a gap to
                                // its successor: coalescing with it failed
                                assert(new_interval.end + 1 < s[ii + 1].start);
                            }
                            assert forall|x: int|
                                seq_contains(self@, x) <==> seq_contains(s, x) || x
                                    == item as int by {
                                if seq_contains(t, x) {
                                    let k = choose|k: int|
                                        0 <= k < t.len() && #[trigger] t[k].spec_contains(x);
                                    if k != ii {
                                        assert(s[k].spec_contains(x));
                                    } else {
                                        if x != item as int {
                                            assert(s[ii].spec_contains(x));
                                        }
                                    }
                                }
                                if seq_contains(s, x) {
                                    let k = choose|k: int|
                                        0 <= k < s.len() && #[trigger] s[k].spec_contains(x);
                                    assert(t[k].spec_contains(x));
                                }
                                if x == item as int {
                                    assert(t[ii].spec_contains(x));
                                }
                            }
                            assert(canonical(t)) by {
                                assert forall|k: int|
                                    0 <= k && k + 1 < t.len() implies (#[trigger] t[k]).end + 1
                                    < t[k + 1].start by {
                                    if k + 1 < ii {
                                        assert(t[k] == s[k] && t[k + 1] == s[k + 1]);
                                    } else if k + 1 == ii {
                                        assert(t[k] == s[k]);
                                    } else if k == ii {
                                        assert(t[k + 1] == s[k + 1]);
                                    } else {
                                        assert(t[k] == s[k] && t[k + 1] == s[k + 1]);
                                    }
                                }
                                assert forall|k: int| 0 <= k < t.len() implies !(
                                #[trigger] t[k]).spec_is_empty() by {
                                    if k != ii {
                                        assert(t[k] == s[k]);
                                    }
                                }
                            }
                        }
                    }
                    proof {
                        assert forall|x: int|
                            seq_contains(self@, x) <==> seq_contains(old(self)@, x) || x
                                == item as int by {
                            assert(seq_contains(self@, x) <==> seq_contains(s, x) || x
                                == item as int);
                        }
                    }
                    return ;
                },
                None => {},
            }
            i += 1;
        }
        proof {
            if n > 0 {
                // the fast path only falls through with the point at or below
                // last.end + 1, and the scan only completes with the point
                // beyond every interval: the set must have been empty
                assert(item as int > s[n - 1].end + 1);
                assert(false);
            }
        }
        self.intervals.push(ContiguousIntegerSet::new(item, item));
        proof {
            assert forall|x: int|
                seq_contains(self@, x) <==> seq_contains(old(self)@, x) || x == item as int by {
                lemma_seq_contains_push(s, ContiguousIntegerSet { start: item, end: item }, x);
            }
        }
    }

    /// The number of member intervals.
    pub fn num_intervals(&self) -> (r: usize)
        ensures
            r == self@.len(),
    {
        self.intervals.len()
    }

    /// A borrowing iterator over the member intervals, in order.
    pub fn intervals_iter(&self) -> (it: std::slice::Iter<'_, ContiguousIntegerSet>)
        ensures
            vstd::std_specs::iter::IteratorSpec::remaining(&it) == self@.as_ref(),
    {
        self.intervals.as_slice().iter()
    }

    /// Read-only view of the member intervals.
    pub fn get_intervals_by_ref(&self) -> (r: &Vec<ContiguousIntegerSet>)
        ensures
            r@ == self@,
    {
        &self.intervals
    }

    /// Consumes the set into its raw interval vector.
    pub fn into_intervals(self) -> (r: Vec<ContiguousIntegerSet>)
        ensures
            r@ == self@,
    {
        self.intervals
    }
}

/// A restartable ascending iterator over every integer of an ordered set.
pub struct IntegerSetIter {
    ordered_integer_set: OrderedIntegerSet,
    current_interval_index: usize,
    current_element_index: usize,
}

impl IntegerSetIter {
    /// The set is canonical and countable in a machine word, and the cursor
    /// points at an element of the current interval.
    pub closed spec fn wf(self) -> bool {
        &&& self.ordered_integer_set.wf()
        &&& total_size(self.ordered_integer_set@) <= usize::MAX
        &&& self.current_interval_index <= self.ordered_integer_set@.len()
        &&& self.current_interval_index < self.ordered_integer_set@.len()
            ==> (self.current_element_index as int)
            < self.ordered_integer_set@[self.current_interval_index as int].spec_size()
    }

    /// The integers the iterator has yet to produce, in ascending order.
    pub closed spec fn remaining(self) -> Seq<int> {
        let s = self.ordered_integer_set@;
        let idx = self.current_interval_index as int;
        if idx >= s.len() {
            Seq::empty()
        } else {
            s[idx].seq_of().skip(self.current_element_index as int) + elems(s.skip(idx + 1))
        }
    }

    /// Produces the next integer of the set, or `None` when every integer
    /// has been produced.
    pub fn next(&mut self) -> (r: Option<i64>)
        requires
            old(self).wf(),
        ensures
            final(self).wf(),
            match r {
                None => old(self).remaining().len() == 0 && *final(self) == *old(self),
                Some(v) => old(self).remaining().len() > 0 && v as int == old(self).remaining()[0]
                    && final(self).remaining() == old(self).remaining().drop_first(),
            },
    {
        let n = self.ordered_integer_set.intervals.len();
        if self.current_interval_index >= n {
            return None;
        }
        let ghost s = self.ordered_integer_set@;
        let ghost idx0 = self.current_interval_index as int;
        let interval = self.ordered_integer_set.intervals[self.current_interval_index];
        proof {
            lemma_total_size_split(s, idx0);
            let suf = s.subrange(idx0, s.len() as int);
            assert(suf[0] == s[idx0]);
            assert(suf.drop_first() =~= s.subrange(idx0 + 1, s.len() as int));
            lemma_total_size_nonneg(suf.drop_first());
            lemma_total_size_nonneg(s.subrange(0, idx0));
        }
        let val = (interval.start as i128 + self.current_element_index as i128) as i64;
        let size = interval.size();
        if self.current_element_index + 1 < size {
            self.current_element_index = self.current_element_index + 1;
            proof {
                assert(self.remaining() =~= old(self).remaining().drop_first());
            }
        } else {
            self.current_interval_index = self.current_interval_index + 1;
            self.current_element_index = 0;
            proof {
                let t = s.skip(idx0 + 1);
                if idx0 + 1 < s.len() {
                    assert(t[0] == s[idx0 + 1]);
                    assert(t.drop_first() =~= s.skip(idx0 + 2));
                    assert(elems(t) == s[idx0 + 1].seq_of() + elems(s.skip(idx0 + 2)));
                    assert(s[idx0 + 1].seq_of().skip(0) =~= s[idx0 + 1].seq_of());
                } else {
                    assert(t =~= Seq::<ContiguousIntegerSet>::empty());
                }
                assert(self.remaining() =~= old(self).remaining().drop_first());
            }
        }
        proof {
            assert(val as int == old(self).remaining()[0]);
        }
        Some(val)
    }
}

impl OrderedIntegerSet {
    /// A fresh iterator over this set, starting at its smallest element.
    pub fn to_iter(&self) -> (it: IntegerSetIter)
        requires
            self.wf(),
            self.spec_size() <= usize::MAX,
        ensures
            it.wf(),
            it.remaining() == elems(self@),
    {
        let it = IntegerSetIter {
            ordered_integer_set: self.clone(),
            current_interval_index: 0,
            current_element_index: 0,
        };
        proof {
            if self@.len() > 0 {
                assert(self@[0].seq_of().skip(0) =~= self@[0].seq_of());
                assert(self@.skip(1) =~= self@.drop_first());
                assert(elems(self@) == self@[0].seq_of() + elems(self@.drop_first()));
            }
            assert(it.remaining() =~= elems(self@));
        }
        it
    }
}

} // verus!
