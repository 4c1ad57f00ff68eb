//! Physical position of one logical record in a log segment.

use std::cmp::Ordering;
use vstd::prelude::*;

verus! {

/// The segment of a record and where in it the record starts.
#[derive(Debug, Clone, Copy, PartialEq, Eq, Ord, Hash, Structural)]
pub struct SegmentOffset {
    segment_number: u64,
    position: u64,
}

impl SegmentOffset {
    pub closed spec fn spec_segment_number(self) -> u64 {
        self.segment_number
    }

    pub closed spec fn spec_position(self) -> u64 {
        self.position
    }

    /// Creates a physical record position.
    pub fn new(segment_number: u64, position: u64) -> (offset: SegmentOffset)
        ensures
            offset.spec_segment_number() == segment_number,
            offset.spec_position() == position,
    {
        SegmentOffset { segment_number, position }
    }

    /// Returns the containing segment number.
    pub fn segment_number(self) -> (number: u64)
        ensures
            number == self.spec_segment_number(),
    {
        self.segment_number
    }

    /// Returns the record's byte position within its segment.
    pub fn position(self) -> (position: u64)
        ensures
            position == self.spec_position(),
    {
        self.position
    }
}

/// Two positions are equal exactly where they are in the same segment and at
/// the same place of it.
pub proof fn equal_offsets_are_one_place(left: SegmentOffset, right: SegmentOffset)
    ensures
        left == right <==> left.spec_segment_number() == right.spec_segment_number() && left.spec_position()
            == right.spec_position(),
{
}

impl PartialOrd for SegmentOffset {
    fn partial_cmp(&self, other: &SegmentOffset) -> (order: Option<Ordering>) {
        if self.segment_number < other.segment_number {
            Some(Ordering::Less)
        } else if self.segment_number > other.segment_number {
            Some(Ordering::Greater)
        } else if self.position < other.position {
            Some(Ordering::Less)
        } else if self.position > other.position {
            Some(Ordering::Greater)
        } else {
            Some(Ordering::Equal)
        }
    }
}

impl vstd::std_specs::cmp::PartialOrdSpecImpl for SegmentOffset {
    open spec fn obeys_partial_cmp_spec() -> bool {
        true
    }

    /// Positions are ordered by their segments, and inside a segment by their
    /// places.
    open spec fn partial_cmp_spec(&self, other: &SegmentOffset) -> Option<Ordering> {
        if self.spec_segment_number() != other.spec_segment_number() {
            if self.spec_segment_number() < other.spec_segment_number() {
                Some(Ordering::Less)
            } else {
                Some(Ordering::Greater)
            }
        } else if self.spec_position() < other.spec_position() {
            Some(Ordering::Less)
        } else if self.spec_position() > other.spec_position() {
            Some(Ordering::Greater)
        } else {
            Some(Ordering::Equal)
        }
    }
}

} // verus!
