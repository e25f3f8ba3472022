//! Positional slicing by rank: a slicer extracts the elements at a range of
//! ranks of a set's ascending iteration order.

use std::ops::Range;

use vstd::prelude::*;

use crate::contiguous_integer_set::ContiguousIntegerSet;
use crate::model::canonical;
use crate::model::elems;
use crate::model::lemma_canonical_gap;
use crate::model::lemma_elems_push;
use crate::model::lemma_elems_window;
use crate::model::lemma_total_size_nonneg;
use crate::model::lemma_total_size_push;
use crate::model::lemma_total_size_split;
use crate::model::total_size;
use crate::ordered_integer_set::OrderedIntegerSet;

verus! {

/// The smaller of two integers.
pub open spec fn min_int(a: int, b: int) -> int {
    if a <= b {
        a
    } else {
        b
    }
}

/// The total size of the first `k` intervals.
pub open spec fn prefix_size(s: Seq<ContiguousIntegerSet>, k: int) -> int {
    total_size(s.subrange(0, k))
}

/// Something that can cut a positional slice out of `I`, producing an `O`.
pub trait Slicing<I, O> {
    /// What the slicer asks of its input.
    spec fn slice_requires(self, input: I) -> bool;

    /// What the produced output guarantees.
    spec fn slice_ensures(self, input: I, output: O) -> bool;

    fn slice(self, input: I) -> (output: O)
        requires
            self.slice_requires(input),
        ensures
            self.slice_ensures(input, output),
    ;
}

impl<'a> Slicing<&'a ContiguousIntegerSet, Option<ContiguousIntegerSet>> for Range<usize> {
    /// The upper rank must not push the sub-range's end past the integer
    /// width.
    open spec fn slice_requires(self, input: &'a ContiguousIntegerSet) -> bool {
        self.start < self.end && (self.start as int) < input.spec_size() ==> input.start + self.end
            - 1 <= i64::MAX
    }

    /// The sub-range covering the `start`-th (inclusive) through `end`-th
    /// (exclusive) elements of the interval, in ascending order; `None` when
    /// the rank range is empty or starts beyond the interval's size.  The
    /// upper rank is not clamped to the interval's size.
    open spec fn slice_ensures(
        self,
        input: &'a ContiguousIntegerSet,
        output: Option<ContiguousIntegerSet>,
    ) -> bool {
        match output {
            None => self.start >= self.end || self.start as int >= input.spec_size(),
            Some(c) => self.start < self.end && (self.start as int) < input.spec_size()
                && c.start == input.start + self.start && c.end == input.start + self.end - 1,
        }
    }

    fn slice(self, input: &'a ContiguousIntegerSet) -> (output: Option<ContiguousIntegerSet>) {
        if self.start >= self.end {
            return None;
        }
        let size128: i128 = if input.start > input.end {
            0
        } else {
            input.end as i128 - input.start as i128 + 1
        };
        if self.start as i128 >= size128 {
            return None;
        }
        Some(
            ContiguousIntegerSet::new(
                (input.start as i128 + self.start as i128) as i64,
                (input.start as i128 + self.end as i128 - 1) as i64,
            ),
        )
    }
}

impl<'a> Slicing<&'a OrderedIntegerSet, OrderedIntegerSet> for Range<usize> {
    /// The set must be canonical and small enough for its ranks to be
    /// counted in a machine word.
    open spec fn slice_requires(self, input: &'a OrderedIntegerSet) -> bool {
        input.wf() && total_size(input@) <= usize::MAX
    }

    /// The output holds exactly the elements of the input at ranks `start`
    /// (inclusive) through `end` (exclusive) of its ascending order, both
    /// clamped to the input's size; an empty or inverted rank range yields
    /// the empty set.
    open spec fn slice_ensures(
        self,
        input: &'a OrderedIntegerSet,
        output: OrderedIntegerSet,
    ) -> bool {
        &&& output.wf()
        &&& self.start >= self.end ==> output@ == Seq::<ContiguousIntegerSet>::empty()
        &&& self.start < self.end ==> elems(output@) == elems(input@).subrange(
            min_int(self.start as int, total_size(input@)),
            min_int(self.end as int, total_size(input@)),
        )
    }

    #[verifier::rlimit(100)]
    fn slice(self, input: &'a OrderedIntegerSet) -> (output: OrderedIntegerSet) {
        if self.start >= self.end {
            return OrderedIntegerSet::new();
        }
        let lo = self.start;
        let hi = self.end;
        let mut skip = lo;
        let mut remaining = hi - lo;
        let mut pieces: Vec<ContiguousIntegerSet> = Vec::new();
        let intervals = input.get_intervals_by_ref();
        let num = intervals.len();
        let mut idx: usize = 0;
        proof {
            assert(input@.subrange(0, 0) =~= Seq::<ContiguousIntegerSet>::empty());
        }
        while idx < num && remaining > 0
            invariant
                input.wf(),
                intervals@ == input@,
                total_size(input@) <= usize::MAX,
                num == input@.len(),
                idx <= num,
                lo < hi,
                skip as int + remaining as int <= hi as int,
                prefix_size(input@, idx as int) <= lo as int ==> skip == lo as int - prefix_size(
                    input@,
                    idx as int,
                ) && pieces@.len() == 0 && remaining == hi - lo,
                prefix_size(input@, idx as int) > lo as int ==> skip == 0 && remaining == hi as int
                    - min_int(hi as int, prefix_size(input@, idx as int)),
                prefix_size(input@, idx as int) <= lo as int ==> pieces@
                    == Seq::<ContiguousIntegerSet>::empty(),
                prefix_size(input@, idx as int) > lo as int ==> elems(pieces@) == elems(
                    input@,
                ).subrange(lo as int, min_int(hi as int, prefix_size(input@, idx as int))),
                canonical(pieces@),
                pieces@.len() > 0 ==> idx >= 1 && pieces@.last().end <= input@[idx as int - 1].end,
            decreases num - idx,
        {
            let ghost p = prefix_size(input@, idx as int);
            let interval = intervals[idx];
            proof {
                lemma_total_size_split(input@, idx as int);
                let suf = input@.subrange(idx as int, input@.len() as int);
                assert(suf[0] == input@[idx as int]);
                assert(suf.drop_first() =~= input@.subrange(idx as int + 1, input@.len() as int));
                lemma_total_size_nonneg(suf.drop_first());
                lemma_total_size_nonneg(input@.subrange(0, idx as int));
                assert(input@.subrange(0, idx as int + 1) =~= input@.subrange(0, idx as int).push(
                    input@[idx as int],
                ));
                lemma_total_size_push(input@.subrange(0, idx as int), input@[idx as int]);
                lemma_elems_window(input@, idx as int);
                crate::model::lemma_elems_len(input@);
            }
            let size = interval.size();
            if skip > 0 {
                if skip >= size {
                    skip -= size;
                } else {
                    let stop = if skip + remaining <= size {
                        skip + remaining
                    } else {
                        size
                    };
                    let piece_opt = (skip..stop).slice(&interval);
                    let ghost pieces0 = pieces@;
                    match piece_opt {
                        Some(piece) => {
                            pieces.push(piece);
                            proof {
                                assert(piece.seq_of() =~= elems(input@).subrange(
                                    p + skip,
                                    p + stop,
                                )) by {
                                    assert forall|j: int| 0 <= j < stop - skip implies (
                                    #[trigger] piece.seq_of()[j]) == elems(input@).subrange(
                                        p + skip,
                                        p + stop,
                                    )[j] by {
                                        assert(interval.seq_of()[skip + j] == elems(
                                            input@,
                                        ).subrange(p, p + interval.spec_size())[skip + j]);
                                    }
                                }
                                lemma_elems_push(pieces0, piece);
                                assert(elems(pieces0) =~= Seq::<int>::empty());
                                assert(elems(pieces@) =~= elems(input@).subrange(p + skip, p
                                    + stop));
                            }
                        },
                        None => {
                            proof {
                                assert(false);
                            }
                        },
                    }
                    remaining -= stop - skip;
                    skip = 0;
                }
            } else {
                let increase = if remaining <= size {
                    remaining
                } else {
                    size
                };
                let piece_opt = (0..increase).slice(&interval);
                let ghost pieces0 = pieces@;
                match piece_opt {
                    Some(piece) => {
                        pieces.push(piece);
                        proof {
                            assert(piece.seq_of() =~= elems(input@).subrange(p, p + increase)) by {
                                assert forall|j: int| 0 <= j < increase implies (
                                #[trigger] piece.seq_of()[j]) == elems(input@).subrange(
                                    p,
                                    p + increase,
                                )[j] by {
                                    assert(interval.seq_of()[j] == elems(input@).subrange(
                                        p,
                                        p + interval.spec_size(),
                                    )[j]);
                                }
                            }
                            lemma_elems_push(pieces0, piece);
                            assert(elems(pieces0) == elems(input@).subrange(lo as int, p));
                            assert(elems(pieces@) =~= elems(input@).subrange(lo as int, p
                                + increase));
                            assert(canonical(pieces@)) by {
                                assert forall|k: int|
                                    0 <= k && k + 1 < pieces@.len() implies (
                                #[trigger] pieces@[k]).end + 1 < pieces@[k + 1].start by {
                                    if k + 1 < pieces@.len() - 1 {
                                        assert(pieces@[k] == pieces0[k] && pieces@[k + 1]
                                            == pieces0[k + 1]);
                                    } else {
                                        assert(pieces@[k] == pieces0[k]);
                                        lemma_canonical_gap(input@, idx as int - 1, idx as int);
                                    }
                                }
                                assert forall|k: int| 0 <= k < pieces@.len() implies !(
                                #[trigger] pieces@[k]).spec_is_empty() by {
                                    if k < pieces@.len() - 1 {
                                        assert(pieces@[k] == pieces0[k]);
                                    }
                                }
                            }
                        }
                    },
                    None => {
                        proof {
                            assert(false);
                        }
                    },
                }
                remaining -= increase;
            }
            idx += 1;
        }
        proof {
            let fp = prefix_size(input@, idx as int);
            let n = total_size(input@);
            crate::model::lemma_elems_len(input@);
            if idx == num {
                assert(input@.subrange(0, idx as int) =~= input@);
            } else {
                assert(remaining == 0);
                lemma_total_size_split(input@, idx as int);
                lemma_total_size_nonneg(input@.subrange(idx as int, input@.len() as int));
            }
            if fp <= lo as int {
                // nothing was taken: the requested ranks start at or beyond
                // the set's size
                assert(idx == num);
                assert(elems(pieces@) =~= elems(input@).subrange(
                    min_int(lo as int, n),
                    min_int(hi as int, n),
                ));
            } else {
                assert(min_int(lo as int, n) == lo as int);
                if remaining == 0 {
                    assert(min_int(hi as int, fp) == hi as int);
                    assert(min_int(hi as int, n) == hi as int);
                } else {
                    assert(idx == num);
                }
            }
        }
        OrderedIntegerSet::from_ordered_coalesced_contiguous_integer_sets(pieces)
    }
}

impl ContiguousIntegerSet {
    /// Applies a slicer to this interval.
    pub fn slice<'a, I: Slicing<&'a ContiguousIntegerSet, Option<ContiguousIntegerSet>>>(
        &'a self,
        slicer: I,
    ) -> (r: Option<ContiguousIntegerSet>)
        requires
            slicer.slice_requires(self),
        ensures
            slicer.slice_ensures(self, r),
    {
        slicer.slice(self)
    }
}

impl OrderedIntegerSet {
    /// Applies a slicer to this set.
    pub fn slice<'a, I: Slicing<&'a OrderedIntegerSet, OrderedIntegerSet>>(
        &'a self,
        slicer: I,
    ) -> (r: OrderedIntegerSet)
        requires
            slicer.slice_requires(self),
        ensures
            slicer.slice_ensures(self, r),
    {
        slicer.slice(self)
    }
}

} // verus!
