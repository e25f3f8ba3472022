//! A closed integer interval `[start, end]` and its operations.

use vstd::prelude::*;

verus! {

/// The set of integers in the closed interval `[start, end]`.
///
/// A value with `start > end` is the canonical representation of the empty
/// set; it is never exposed as a non-empty interval.
#[derive(Copy, Clone, PartialEq, Eq, Structural, Debug)]
pub struct ContiguousIntegerSet {
    pub start: i64,
    pub end: i64,
}

impl ContiguousIntegerSet {
    /// The interval denotes no integer at all.
    pub open spec fn spec_is_empty(self) -> bool {
        self.start > self.end
    }

    /// The integer `x` lies in the interval.
    pub open spec fn spec_contains(self, x: int) -> bool {
        self.start <= x && x <= self.end
    }

    /// How many integers the interval denotes.
    pub open spec fn spec_size(self) -> int {
        if self.spec_is_empty() {
            0
        } else {
            self.end - self.start + 1
        }
    }

    /// The integers of the interval, in ascending order.
    pub open spec fn seq_of(self) -> Seq<int> {
        Seq::new(self.spec_size() as nat, |k: int| self.start + k)
    }

    /// Intersection of two intervals: `None` when either is empty or they do
    /// not overlap, otherwise the interval of the common integers.
    pub open spec fn spec_intersect(a: Self, b: Self) -> Option<Self> {
        if a.spec_is_empty() || b.spec_is_empty() || b.end < a.start || b.start > a.end {
            None
        } else {
            Some(
                ContiguousIntegerSet {
                    start: if a.start >= b.start { a.start } else { b.start },
                    end: if a.end <= b.end { a.end } else { b.end },
                },
            )
        }
    }

    /// Coalescing of two intervals: the single interval covering both, when
    /// they overlap or are adjacent; an empty operand coalesces with anything,
    /// yielding the other operand.
    pub open spec fn spec_coalesce(a: Self, b: Self) -> Option<Self> {
        if a.spec_is_empty() && b.spec_is_empty() {
            None
        } else if a.spec_is_empty() {
            Some(b)
        } else if b.spec_is_empty() {
            Some(a)
        } else if a.start > b.end + 1 || a.end + 1 < b.start {
            None
        } else {
            Some(
                ContiguousIntegerSet {
                    start: if a.start <= b.start { a.start } else { b.start },
                    end: if a.end >= b.end { a.end } else { b.end },
                },
            )
        }
    }

    /// Coalescing of an interval with a single point, the point standing for
    /// the interval `[p, p]`.
    pub open spec fn spec_coalesce_point(a: Self, p: int) -> Option<Self> {
        if a.spec_is_empty() {
            Some(ContiguousIntegerSet { start: p as i64, end: p as i64 })
        } else if a.start > p + 1 || a.end + 1 < p {
            None
        } else {
            Some(
                ContiguousIntegerSet {
                    start: if a.start <= p { a.start } else { p as i64 },
                    end: if a.end >= p { a.end } else { p as i64 },
                },
            )
        }
    }

    pub fn new(start: i64, end: i64) -> (s: ContiguousIntegerSet)
        ensures
            s.start == start,
            s.end == end,
    {
        ContiguousIntegerSet { start, end }
    }

    pub fn is_empty(&self) -> (r: bool)
        ensures
            r == self.spec_is_empty(),
    {
        self.start > self.end
    }

    pub fn contains(&self, item: i64) -> (r: bool)
        ensures
            r == self.spec_contains(item as int),
    {
        item >= self.start && item <= self.end
    }

    pub fn get_start(&self) -> (r: i64)
        ensures
            r == self.start,
    {
        self.start
    }

    pub fn get_end(&self) -> (r: i64)
        ensures
            r == self.end,
    {
        self.end
    }

    /// The difference `end - start`; meaningful only for non-empty intervals.
    pub fn length(&self) -> (r: i64)
        requires
            i64::MIN <= self.end - self.start <= i64::MAX,
        ensures
            r == self.end - self.start,
    {
        self.end - self.start
    }

    /// The number of integers in the interval.
    pub fn size(&self) -> (r: usize)
        requires
            self.spec_size() <= usize::MAX,
        ensures
            r == self.spec_size(),
    {
        if self.start > self.end {
            0
        } else {
            (self.end as i128 - self.start as i128 + 1) as usize
        }
    }

    pub fn intersect(&self, other: &ContiguousIntegerSet) -> (r: Option<ContiguousIntegerSet>)
        ensures
            r == Self::spec_intersect(*self, *other),
            r is Some ==> forall|x: int|
                r->Some_0.spec_contains(x) <==> self.spec_contains(x) && other.spec_contains(x),
            r is None ==> forall|x: int| !(self.spec_contains(x) && other.spec_contains(x)),
    {
        if self.is_empty() || other.is_empty() || other.end < self.start || other.start > self.end {
            None
        } else {
            Some(
                ContiguousIntegerSet::new(
                    if self.start >= other.start { self.start } else { other.start },
                    if self.end <= other.end { self.end } else { other.end },
                ),
            )
        }
    }

    /// Merges two intervals into one covering both iff they overlap or are
    /// adjacent; an empty interval coalesces with anything, yielding the
    /// other operand.  Returns `None` when a genuine gap exists between two
    /// non-empty operands, or when both are empty.
    pub fn coalesce_with(&self, other: &ContiguousIntegerSet) -> (r: Option<ContiguousIntegerSet>)
        ensures
            r == Self::spec_coalesce(*self, *other),
    {
        if self.is_empty() && other.is_empty() {
            None
        } else if self.is_empty() {
            Some(*other)
        } else if other.is_empty() {
            Some(*self)
        } else {
            if self.start as i128 > other.end as i128 + 1 || self.end as i128 + 1 < other.start as i128 {
                None
            } else {
                Some(
                    ContiguousIntegerSet::new(
                        if self.start <= other.start { self.start } else { other.start },
                        if self.end >= other.end { self.end } else { other.end },
                    ),
                )
            }
        }
    }

    /// Coalescing with a single point, the point standing for `[p, p]`.
    pub fn coalesce_with_point(&self, other: i64) -> (r: Option<ContiguousIntegerSet>)
        ensures
            r == Self::spec_coalesce_point(*self, other as int),
    {
        if self.is_empty() {
            Some(ContiguousIntegerSet::new(other, other))
        } else {
            if self.start as i128 > other as i128 + 1 || self.end as i128 + 1 < other as i128 {
                None
            } else {
                Some(
                    ContiguousIntegerSet::new(
                        if self.start <= other { self.start } else { other },
                        if self.end >= other { self.end } else { other },
                    ),
                )
            }
        }
    }
}

/// A restartable ascending iterator over the integers of one interval.
pub struct ContiguousIntegerSetIter {
    contiguous_integer_set: ContiguousIntegerSet,
    current: i128,
}

impl ContiguousIntegerSetIter {
    /// The cursor stays between the interval's start and one past its end.
    pub closed spec fn wf(self) -> bool {
        self.contiguous_integer_set.start <= self.current && (self.current
            <= self.contiguous_integer_set.end + 1 || self.current
            == self.contiguous_integer_set.start)
    }

    /// The integers the iterator has yet to produce, in ascending order.
    pub closed spec fn remaining(self) -> Seq<int> {
        let len = if self.current > self.contiguous_integer_set.end {
            0
        } else {
            self.contiguous_integer_set.end - self.current + 1
        };
        Seq::new(len as nat, |k: int| self.current + k)
    }

    /// Produces the next integer of the interval, or `None` when every
    /// integer has been produced.
    pub fn next(&mut self) -> (r: Option<i64>)
        requires
            old(self).wf(),
        ensures
            final(self).wf(),
            match r {
                None => old(self).remaining().len() == 0 && *final(self) == *old(self),
                Some(v) => old(self).remaining().len() > 0 && v as int == old(self).remaining()[0]
                    && final(self).remaining() == old(self).remaining().drop_first(),
            },
    {
        if self.current > self.contiguous_integer_set.end as i128 {
            None
        } else {
            let val = self.current as i64;
            self.current = self.current + 1;
            proof {
                assert(self.remaining() =~= old(self).remaining().drop_first());
            }
            Some(val)
        }
    }
}

impl ContiguousIntegerSet {
    /// A fresh iterator over this interval, starting at its first integer.
    pub fn to_iter(&self) -> (it: ContiguousIntegerSetIter)
        ensures
            it.wf(),
            it.remaining() == self.seq_of(),
    {
        let it = ContiguousIntegerSetIter {
            contiguous_integer_set: *self,
            current: self.start as i128,
        };
        proof {
            assert(it.remaining() =~= self.seq_of());
        }
        it
    }
}

} // verus!
