//! Inclusive intervals of the 64-bit address space.
use vstd::prelude::*;

verus! {

/// An inclusive range `[start, end]` of addresses.
#[derive(Clone, Copy, Debug, PartialEq, Eq, Structural)]
pub struct Range {
    pub start: u64,
    pub end: u64,
}

impl Range {
    /// A range is valid when it is not empty.
    pub open spec fn valid(self) -> bool {
        self.start <= self.end
    }

    /// Whether address `p` lies in the range.
    pub open spec fn has(self, p: int) -> bool {
        self.start <= p <= self.end
    }

    /// The addresses the range covers.
    pub open spec fn addrs(self) -> Set<int> {
        Set::new(|p: int| self.has(p))
    }

    /// Two ranges overlap or are adjacent (one ends right before the other
    /// starts): such ranges are merged into one.
    pub open spec fn touches(self, o: Range) -> bool {
        self.start <= o.end + 1 && o.start <= self.end + 1
    }

    /// Two ranges share at least one address.
    pub open spec fn meets(self, o: Range) -> bool {
        self.start <= o.end && o.start <= self.end
    }

    /// The common part of two ranges that meet.
    pub open spec fn meet(self, o: Range) -> Range {
        Range {
            start: if self.start >= o.start { self.start } else { o.start },
            end: if self.end <= o.end { self.end } else { o.end },
        }
    }

    /// The smallest range holding both `self` and `o`.
    pub open spec fn hull(self, o: Range) -> Range {
        Range {
            start: if self.start <= o.start { self.start } else { o.start },
            end: if self.end >= o.end { self.end } else { o.end },
        }
    }

    /// `self` lies within `o`.
    pub open spec fn within(self, o: Range) -> bool {
        o.start <= self.start && self.end <= o.end
    }

    /// Two valid ranges that touch merge into their hull, which holds exactly
    /// the addresses of the two.
    pub proof fn lemma_hull_addrs(self, o: Range)
        requires
            self.valid(),
            o.valid(),
            self.touches(o),
        ensures
            self.hull(o).valid(),
            self.hull(o).addrs() =~= self.addrs().union(o.addrs()),
            self.within(self.hull(o)),
            o.within(self.hull(o)),
    {
    }

    /// Returns the range `[start, end]`.
    pub fn new(start: u64, end: u64) -> (r: Self)
        requires
            start <= end,
        ensures
            r.start == start,
            r.end == end,
    {
        Self { start, end }
    }

    /// Whether `other` lies entirely within this range.
    pub fn contains(&self, other: &Range) -> (r: bool)
        requires
            other.valid(),
        ensures
            r == (self.start <= other.start && other.end <= self.end),
    {
        self.start <= other.start && self.end >= other.end
    }

    /// The addresses this range shares with `other`, if there are any.
    pub fn overlaps(&self, other: &Range) -> (r: Option<Range>)
        requires
            other.valid(),
        ensures
            r == (if self.meets(*other) { Some(self.meet(*other)) } else { None::<Range> }),
    {
        if self.start <= other.end && other.start <= self.end {
            let start = if self.start >= other.start { self.start } else { other.start };
            let end = if self.end <= other.end { self.end } else { other.end };
            Some(Range { start, end })
        } else {
            None
        }
    }
}

} // verus!
