use vstd::prelude::*;
use std::collections::VecDeque;

verus! {

/// A run of hues `[low, high)` that still holds unresolved hues. The bounds
/// are positions on the wheel that are not reduced modulo 360.
#[derive(Clone, Copy, Debug, PartialEq, Eq, Hash, Structural)]
pub struct PendingRange {
    pub low: usize,
    pub high: usize,
}

impl PendingRange {
    /// The position halfway between the bounds, rounded down.
    pub open spec fn mid(self) -> int {
        (self.low + self.high) / 2
    }

    /// Whether `hue` lies strictly between the bounds.
    pub open spec fn surrounds(self, hue: int) -> bool {
        self.low < hue < self.high
    }

    /// Whether the two ranges share no position strictly inside either.
    pub open spec fn apart_from(self, other: PendingRange) -> bool {
        self.high <= other.low || other.high <= self.low
    }

    /// The position halfway between the bounds, rounded down.
    pub fn midpoint(&self) -> (mid: usize)
        ensures
            mid == self.mid(),
    {
        self.low / 2 + self.high / 2 + (self.low % 2 + self.high % 2) / 2
    }
}

/// The pending ranges, first in, first out.
pub struct WorkQueue {
    ranges: VecDeque<PendingRange>,
}

impl View for WorkQueue {
    type V = Seq<PendingRange>;

    closed spec fn view(&self) -> Seq<PendingRange> {
        self.ranges@
    }
}

impl WorkQueue {
    /// A queue that holds no range.
    pub fn new() -> (queue: WorkQueue)
        ensures
            queue@ == Seq::<PendingRange>::empty(),
    {
        WorkQueue { ranges: VecDeque::new() }
    }

    /// Adds a range behind all that the queue holds.
    pub fn push_back(&mut self, range: PendingRange)
        ensures
            final(self)@ == old(self)@.push(range),
    {
        self.ranges.push_back(range);
    }

    /// Takes out the range that has waited longest, if there is one.
    pub fn pop_front(&mut self) -> (front: Option<PendingRange>)
        ensures
            old(self)@.len() == 0 ==> front.is_none() && final(self)@ == old(self)@,
            old(self)@.len() > 0 ==> front == Some(old(self)@[0]) && final(self)@ == old(
                self,
            )@.drop_first(),
    {
        let front = self.ranges.pop_front();
        proof {
            if old(self)@.len() > 0 {
                assert(final(self)@ =~= old(self)@.drop_first());
            }
        }
        front
    }

    /// The number of ranges in the queue.
    pub fn len(&self) -> (n: usize)
        ensures
            n == self@.len(),
    {
        self.ranges.len()
    }

    /// Whether the queue holds no range.
    pub fn is_empty(&self) -> (empty: bool)
        ensures
            empty == (self@.len() == 0),
    {
        self.ranges.len() == 0
    }

    /// The ranges in the order in which they will leave the queue.
    pub fn to_vec(&self) -> (ranges: Vec<PendingRange>)
        ensures
            ranges@ == self@,
    {
        let mut ranges: Vec<PendingRange> = Vec::new();
        let n: usize = self.ranges.len();
        let mut i: usize = 0;
        while i < n
            invariant
                n == self.ranges@.len(),
                i <= n,
                ranges@ == self.ranges@.subrange(0, i as int),
            decreases n - i,
        {
            ranges.push(self.ranges[i]);
            assert(ranges@ =~= self.ranges@.subrange(0, i + 1));
            i += 1;
        }
        assert(ranges@ =~= self@);
        ranges
    }
}

} // verus!
