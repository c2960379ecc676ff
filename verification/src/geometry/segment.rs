//! Straight cuts: what one triangle leaves in one plane.

use vstd::prelude::*;
use crate::geometry::point::Point2;
use crate::units::is_floor_sqrt;

verus! {

/// A straight line between two points of a cutting plane.
#[derive(Clone, Copy, Debug, PartialEq, Eq, Structural)]
pub struct LineSegment2D {
    pub start: Point2,
    pub end: Point2,
}

/// Which ends of two segments meet.
#[derive(Clone, Copy, Debug, PartialEq, Eq, Structural)]
pub enum ConnectionType {
    EndToStart,
    EndToEnd,
    StartToStart,
    StartToEnd,
}

impl LineSegment2D {
    /// The same segment run the other way.
    pub open spec fn reversed(self) -> LineSegment2D {
        LineSegment2D { start: self.end, end: self.start }
    }

    /// The same segment run the other way.
    pub fn reverse(&self) -> (r: LineSegment2D)
        ensures
            r == self.reversed(),
    {
        LineSegment2D { start: self.end, end: self.start }
    }

    /// How `self` meets `other`, if it does. Where several pairs of ends
    /// meet, the end of `self` is preferred over its start, and the start
    /// of `other` over its end.
    pub open spec fn connection(self, other: LineSegment2D, tolerance: int) -> Option<
        ConnectionType,
    > {
        if self.end.closer_than(other.start, tolerance) {
            Some(ConnectionType::EndToStart)
        } else if self.end.closer_than(other.end, tolerance) {
            Some(ConnectionType::EndToEnd)
        } else if self.start.closer_than(other.start, tolerance) {
            Some(ConnectionType::StartToStart)
        } else if self.start.closer_than(other.end, tolerance) {
            Some(ConnectionType::StartToEnd)
        } else {
            None
        }
    }

    /// Whether the two segments share an endpoint, and which.
    pub fn connects_to(&self, other: &LineSegment2D, tolerance: i64) -> (c: Option<ConnectionType>)
        ensures
            c == self.connection(*other, tolerance as int),
    {
        if self.end.is_closer_than(&other.start, tolerance) {
            Some(ConnectionType::EndToStart)
        } else if self.end.is_closer_than(&other.end, tolerance) {
            Some(ConnectionType::EndToEnd)
        } else if self.start.is_closer_than(&other.start, tolerance) {
            Some(ConnectionType::StartToStart)
        } else if self.start.is_closer_than(&other.end, tolerance) {
            Some(ConnectionType::StartToEnd)
        } else {
            None
        }
    }

    /// The length of the segment, rounded down to whole grid units.
    pub fn length(&self) -> (l: i64)
        ensures
            is_floor_sqrt(l as int, self.start.distance_squared(self.end)),
    {
        self.start.distance_to(&self.end)
    }
}

} // verus!
