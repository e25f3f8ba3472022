//! Set subtraction: range minus range, set minus range, range minus set, and
//! set minus set.

use vstd::prelude::*;

use crate::contiguous_integer_set::ContiguousIntegerSet;
use crate::model::lemma_seq_contains_add;
use crate::model::lemma_seq_contains_push;
use crate::model::seq_contains;
use crate::ordered_integer_set::OrderedIntegerSet;

verus! {

impl ContiguousIntegerSet {
    /// Subtracts `rhs` from this interval.  The remainder is empty, one
    /// interval, or two intervals, depending on whether `rhs` covers,
    /// overlaps one edge of, splits, or misses this interval.
    pub fn sub(&self, rhs: &ContiguousIntegerSet) -> (r: OrderedIntegerSet)
        ensures
            r.wf(),
            forall|x: int|
                r.spec_contains(x) <==> self.spec_contains(x) && !rhs.spec_contains(x),
    {
        let mut v: Vec<ContiguousIntegerSet> = Vec::new();
        if self.start > self.end {
            // an empty interval has an empty remainder
        } else if rhs.start > rhs.end {
            v.push(*self);
        } else {
            let a = self.start;
            let b = self.end;
            let c = rhs.start;
            let d = rhs.end;
            // left remainder piece [a, min(b, c - 1)]
            let e1: i128 = if (b as i128) <= (c as i128) - 1 {
                b as i128
            } else {
                (c as i128) - 1
            };
            if a as i128 <= e1 {
                v.push(ContiguousIntegerSet::new(a, e1 as i64));
            }
            // right remainder piece [max(d + 1, a), b]
            let s2: i128 = if (d as i128) + 1 >= a as i128 {
                (d as i128) + 1
            } else {
                a as i128
            };
            if s2 <= b as i128 {
                v.push(ContiguousIntegerSet::new(s2 as i64, b));
            }
        }
        proof {
            assert(crate::model::canonical(v@));
            assert forall|x: int|
                seq_contains(v@, x) <==> self.spec_contains(x) && !rhs.spec_contains(x) by {
                if seq_contains(v@, x) {
                    let i = choose|i: int| 0 <= i < v@.len() && #[trigger] v@[i].spec_contains(x);
                }
                if self.spec_contains(x) && !rhs.spec_contains(x) {
                    if rhs.spec_is_empty() {
                        assert(v@[0].spec_contains(x));
                    } else if x < rhs.start {
                        assert(v@[0].spec_contains(x));
                    } else {
                        assert(v@[v@.len() - 1].spec_contains(x));
                    }
                }
            }
        }
        OrderedIntegerSet::from_ordered_coalesced_contiguous_integer_sets(v)
    }

    /// Subtracts a whole set from this interval, one member interval at a
    /// time.
    pub fn sub_integer_set(&self, rhs: &OrderedIntegerSet) -> (r: OrderedIntegerSet)
        ensures
            r.wf(),
            forall|x: int|
                r.spec_contains(x) <==> self.spec_contains(x) && !rhs.spec_contains(x),
    {
        let mut v: Vec<ContiguousIntegerSet> = Vec::new();
        v.push(*self);
        let mut diff = OrderedIntegerSet::from_contiguous_integer_sets(v);
        proof {
            assert forall|x: int| diff.spec_contains(x) <==> self.spec_contains(x) by {
                lemma_seq_contains_push(Seq::empty(), *self, x);
            }
        }
        let rhs_intervals = rhs.get_intervals_by_ref();
        let mut j: usize = 0;
        while j < rhs_intervals.len()
            invariant
                j <= rhs@.len(),
                rhs_intervals@ == rhs@,
                diff.wf(),
                forall|x: int|
                    diff.spec_contains(x) <==> self.spec_contains(x) && !(exists|k: int|
                        0 <= k < j && (#[trigger] rhs@[k]).spec_contains(x)),
            decreases rhs@.len() - j,
        {
            diff = diff.sub_contiguous_integer_set(&rhs_intervals[j]);
            proof {
                assert forall|x: int|
                    diff.spec_contains(x) <==> self.spec_contains(x) && !(exists|k: int|
                        0 <= k < j + 1 && (#[trigger] rhs@[k]).spec_contains(x)) by {
                    if exists|k: int| 0 <= k < j + 1 && (#[trigger] rhs@[k]).spec_contains(x) {
                        let k = choose|k: int|
                            0 <= k < j + 1 && (#[trigger] rhs@[k]).spec_contains(x);
                        if k < j {
                            assert(!diff.spec_contains(x));
                        }
                    }
                }
            }
            j += 1;
        }
        proof {
            assert forall|x: int|
                diff.spec_contains(x) <==> self.spec_contains(x) && !rhs.spec_contains(x) by {
                if rhs.spec_contains(x) {
                    let k = choose|k: int| 0 <= k < rhs@.len() && #[trigger] rhs@[k].spec_contains(x);
                    assert(0 <= k < rhs@.len() && rhs@[k].spec_contains(x));
                }
            }
        }
        diff
    }
}

impl OrderedIntegerSet {
    /// Subtracts a single interval from every member interval, then
    /// re-coalesces the remainders.
    #[verifier::rlimit(100)]
    #[verifier::spinoff_prover]
    pub fn sub_contiguous_integer_set(&self, rhs: &ContiguousIntegerSet) -> (r: OrderedIntegerSet)
        ensures
            r.wf(),
            forall|x: int|
                r.spec_contains(x) <==> self.spec_contains(x) && !rhs.spec_contains(x),
    {
        let mut pieces: Vec<ContiguousIntegerSet> = Vec::new();
        let intervals = self.get_intervals_by_ref();
        let mut i: usize = 0;
        while i < intervals.len()
            invariant
                i <= self@.len(),
                intervals@ == self@,
                forall|x: int| #![trigger seq_contains(pieces@, x)]
                    seq_contains(pieces@, x) <==> seq_contains(self@.subrange(0, i as int), x)
                        && !rhs.spec_contains(x),
            decreases self@.len() - i,
        {
            let ghost pieces0 = pieces@;
            let d = intervals[i].sub(rhs);
            let mut dv = d.into_intervals();
            let ghost dvs = dv@;
            pieces.append(&mut dv);
            proof {
                assert(self@.subrange(0, i as int + 1) =~= self@.subrange(0, i as int).push(
                    self@[i as int],
                ));
                assert forall|x: int| #![trigger seq_contains(pieces@, x)]
                    seq_contains(pieces@, x) <==> seq_contains(self@.subrange(0, i as int + 1), x)
                        && !rhs.spec_contains(x) by {
                    lemma_seq_contains_add(pieces0, dvs, x);
                    lemma_seq_contains_push(self@.subrange(0, i as int), self@[i as int], x);
                    assert(d.spec_contains(x) <==> self@[i as int].spec_contains(x)
                        && !rhs.spec_contains(x));
                    assert(seq_contains(dvs, x) == d.spec_contains(x));
                    assert(seq_contains(pieces0, x) <==> seq_contains(
                        self@.subrange(0, i as int),
                        x,
                    ) && !rhs.spec_contains(x));
                    assert(pieces@ == pieces0 + dvs);
                }
            }
            i += 1;
        }
        proof {
            assert(self@.subrange(0, self@.len() as int) =~= self@);
        }
        OrderedIntegerSet::from_contiguous_integer_sets(pieces)
    }

    /// Subtracts a single interval in place.
    pub fn sub_assign_contiguous_integer_set(&mut self, rhs: &ContiguousIntegerSet)
        ensures
            final(self).wf(),
            forall|x: int|
                final(self).spec_contains(x) <==> old(self).spec_contains(x)
                    && !rhs.spec_contains(x),
    {
        *self = self.sub_contiguous_integer_set(rhs);
    }

    /// Subtracts another set with a single linear sweep: a cursor walks the
    /// right-hand set's intervals, so that each of them is visited at most
    /// once across all the left-hand intervals.
    #[verifier::rlimit(100)]
    #[verifier::spinoff_prover]
    pub fn sub(&self, rhs: &OrderedIntegerSet) -> (r: OrderedIntegerSet)
        requires
            self.wf(),
            rhs.wf(),
        ensures
            r.wf(),
            forall|x: int|
                r.spec_contains(x) <==> self.spec_contains(x) && !rhs.spec_contains(x),
    {
        let mut diff: Vec<ContiguousIntegerSet> = Vec::new();
        let num_rhs = rhs.get_intervals_by_ref().len();
        let n = self.get_intervals_by_ref().len();
        let mut rhs_i: usize = 0;
        let mut ii: usize = 0;
        while ii < n
            invariant
                self.wf(),
                rhs.wf(),
                n == self@.len(),
                num_rhs == rhs@.len(),
                ii <= n,
                rhs_i <= num_rhs,
                forall|k: int|
                    0 <= k < rhs_i ==> (ii < n ==> (#[trigger] rhs@[k]).end < self@[ii as int].start),
                forall|x: int| #![trigger seq_contains(diff@, x)]
                    seq_contains(diff@, x) <==> seq_contains(self@.subrange(0, ii as int), x)
                        && !rhs.spec_contains(x),
            decreases n - ii,
        {
            let interval = self.get_intervals_by_ref()[ii];
            let mut sv: Vec<ContiguousIntegerSet> = Vec::new();
            sv.push(interval);
            let mut d = OrderedIntegerSet::from_ordered_coalesced_contiguous_integer_sets(sv);
            proof {
                assert forall|x: int| d.spec_contains(x) <==> interval.spec_contains(x) by {
                    lemma_seq_contains_push(Seq::empty(), interval, x);
                }
            }
            // skip right-hand intervals that end before this interval starts
            while rhs_i < num_rhs && rhs.get_intervals_by_ref()[rhs_i].end < interval.start
                invariant
                    rhs.wf(),
                    num_rhs == rhs@.len(),
                    rhs_i <= num_rhs,
                    interval == self@[ii as int],
                    0 <= ii < n == self@.len(),
                    forall|k: int| 0 <= k < rhs_i ==> (#[trigger] rhs@[k]).end < interval.start,
                decreases num_rhs - rhs_i,
            {
                rhs_i += 1;
            }
            let ghost skip_base = rhs_i as int;
            // subtract right-hand intervals contained in or overlapping this
            // interval's span
            while rhs_i < num_rhs && rhs.get_intervals_by_ref()[rhs_i].end <= interval.end
                invariant
                    rhs.wf(),
                    num_rhs == rhs@.len(),
                    skip_base <= rhs_i <= num_rhs,
                    interval == self@[ii as int],
                    0 <= ii < n == self@.len(),
                    forall|k: int| 0 <= k < skip_base ==> (#[trigger] rhs@[k]).end < interval.start,
                    forall|k: int|
                        skip_base <= k < rhs_i ==> (#[trigger] rhs@[k]).end <= interval.end,
                    d.wf(),
                    forall|x: int| #![trigger d.spec_contains(x)]
                        d.spec_contains(x) <==> interval.spec_contains(x) && !(exists|k: int|
                            0 <= k < rhs_i && (#[trigger] rhs@[k]).spec_contains(x)),
                decreases num_rhs - rhs_i,
            {
                let b = rhs.get_intervals_by_ref()[rhs_i];
                d = d.sub_contiguous_integer_set(&b);
                proof {
                    assert forall|x: int|
                        d.spec_contains(x) <==> interval.spec_contains(x) && !(exists|k: int|
                            0 <= k < rhs_i + 1 && (#[trigger] rhs@[k]).spec_contains(x)) by {
                        if exists|k: int| 0 <= k < rhs_i + 1 && (#[trigger] rhs@[k]).spec_contains(
                            x,
                        ) {
                            let k = choose|k: int|
                                0 <= k < rhs_i + 1 && (#[trigger] rhs@[k]).spec_contains(x);
                            if k < rhs_i {
                                assert(!d.spec_contains(x));
                            } else {
                                assert(b.spec_contains(x));
                            }
                        }
                    }
                }
                rhs_i += 1;
            }
            // one more right-hand interval may overhang this interval's end
            if rhs_i < num_rhs {
                let b = rhs.get_intervals_by_ref()[rhs_i];
                if b.start <= interval.end {
                    d = d.sub_contiguous_integer_set(&b);
                    proof {
                        assert forall|x: int|
                            d.spec_contains(x) <==> interval.spec_contains(x) && !(exists|k: int|
                                0 <= k < rhs_i + 1 && (#[trigger] rhs@[k]).spec_contains(x)) by {
                            if exists|k: int|
                                0 <= k < rhs_i + 1 && (#[trigger] rhs@[k]).spec_contains(x) {
                                let k = choose|k: int|
                                    0 <= k < rhs_i + 1 && (#[trigger] rhs@[k]).spec_contains(x);
                                if k < rhs_i {
                                    assert(!d.spec_contains(x));
                                } else {
                                    assert(b.spec_contains(x));
                                }
                            }
                        }
                    }
                    proof {
                        assert forall|x: int|
                            d.spec_contains(x) <==> interval.spec_contains(x) && !seq_contains(
                                rhs@,
                                x,
                            ) by {
                            if seq_contains(rhs@, x) && interval.spec_contains(x) {
                                let k = choose|k: int|
                                    0 <= k < rhs@.len() && #[trigger] rhs@[k].spec_contains(x);
                                if k > rhs_i as int {
                                    crate::model::lemma_canonical_gap(rhs@, rhs_i as int, k);
                                    assert(rhs@[k].start > rhs@[rhs_i as int].end);
                                    assert(rhs@[rhs_i as int].end > interval.end);
                                    assert(false);
                                }
                            }
                        }
                    }
                } else {
                    proof {
                        assert forall|x: int|
                            d.spec_contains(x) <==> interval.spec_contains(x) && !seq_contains(
                                rhs@,
                                x,
                            ) by {
                            if seq_contains(rhs@, x) && interval.spec_contains(x) {
                                let k = choose|k: int|
                                    0 <= k < rhs@.len() && #[trigger] rhs@[k].spec_contains(x);
                                if k >= rhs_i as int {
                                    if k > rhs_i as int {
                                        crate::model::lemma_canonical_gap(rhs@, rhs_i as int, k);
                                    }
                                    assert(rhs@[k].start > interval.end);
                                    assert(false);
                                }
                            }
                        }
                    }
                }
            } else {
                proof {
                    assert forall|x: int|
                        d.spec_contains(x) <==> interval.spec_contains(x) && !seq_contains(
                            rhs@,
                            x,
                        ) by {
                        if seq_contains(rhs@, x) {
                            let k = choose|k: int|
                                0 <= k < rhs@.len() && #[trigger] rhs@[k].spec_contains(x);
                            assert(0 <= k < rhs_i);
                        }
                    }
                }
            }
            let ghost diff0 = diff@;
            let mut dv = d.into_intervals();
            let ghost dvs = dv@;
            diff.append(&mut dv);
            proof {
                assert(self@.subrange(0, ii as int + 1) =~= self@.subrange(0, ii as int).push(
                    self@[ii as int],
                ));
                assert forall|x: int| #![trigger seq_contains(diff@, x)]
                    seq_contains(diff@, x) <==> seq_contains(self@.subrange(0, ii as int + 1), x)
                        && !seq_contains(rhs@, x) by {
                    lemma_seq_contains_add(diff0, dvs, x);
                    lemma_seq_contains_push(self@.subrange(0, ii as int), self@[ii as int], x);
                    assert(d.spec_contains(x) <==> interval.spec_contains(x) && !seq_contains(
                        rhs@,
                        x,
                    ));
                    assert(seq_contains(dvs, x) == d.spec_contains(x));
                    assert(seq_contains(diff0, x) <==> seq_contains(
                        self@.subrange(0, ii as int),
                        x,
                    ) && !seq_contains(rhs@, x));
                    assert(diff@ == diff0 + dvs);
                }
                assert forall|k: int|
                    0 <= k < rhs_i && ii + 1 < n implies (#[trigger] rhs@[k]).end < self@[ii as int
                    + 1].start by {
                    assert(rhs@[k].end <= interval.end || rhs@[k].end < interval.start);
                }
            }
            ii += 1;
        }
        proof {
            assert(self@.subrange(0, self@.len() as int) =~= self@);
        }
        OrderedIntegerSet::from_contiguous_integer_sets(diff)
    }

    /// Subtracts another set in place.
    pub fn sub_assign(&mut self, rhs: &OrderedIntegerSet)
        requires
            old(self).wf(),
            rhs.wf(),
        ensures
            final(self).wf(),
            forall|x: int|
                final(self).spec_contains(x) <==> old(self).spec_contains(x)
                    && !rhs.spec_contains(x),
    {
        *self = self.sub(rhs);
    }
}

} // verus!
