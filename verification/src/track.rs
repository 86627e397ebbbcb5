//! Track segments: the unit of mutual exclusion, and the traversal-time rule.

use vstd::prelude::*;

verus! {

/// How many segments the observed network topology has.
pub const SEGMENT_COUNT: usize = 13;

/// One block of rail with a display name and a fixed length. Exclusive access
/// is managed by the segment network, not by the track itself.
pub struct Track {
    pub name: String,
    pub distance: u64,
}

/// The label of one segment of the network; doubles as the position published
/// to the renderer. Labels are ordered, and that order is the global
/// acquisition order that keeps multi-segment holds deadlock-free.
#[derive(Clone, Copy, PartialEq, Eq, Structural, Debug)]
pub enum TrackState {
    L1,
    L2,
    L3,
    L4,
    L5,
    L6,
    L7,
    L8,
    L9,
    L10,
    L11,
    L12,
    L13,
}

impl TrackState {
    /// The position of this label in the network's segment list.
    pub open spec fn index_spec(self) -> int {
        match self {
            TrackState::L1 => 0,
            TrackState::L2 => 1,
            TrackState::L3 => 2,
            TrackState::L4 => 3,
            TrackState::L5 => 4,
            TrackState::L6 => 5,
            TrackState::L7 => 6,
            TrackState::L8 => 7,
            TrackState::L9 => 8,
            TrackState::L10 => 9,
            TrackState::L11 => 10,
            TrackState::L12 => 11,
            TrackState::L13 => 12,
        }
    }

    pub fn index(self) -> (i: usize)
        ensures
            i == self.index_spec(),
            0 <= self.index_spec() < SEGMENT_COUNT,
    {
        match self {
            TrackState::L1 => 0,
            TrackState::L2 => 1,
            TrackState::L3 => 2,
            TrackState::L4 => 3,
            TrackState::L5 => 4,
            TrackState::L6 => 5,
            TrackState::L7 => 6,
            TrackState::L8 => 7,
            TrackState::L9 => 8,
            TrackState::L10 => 9,
            TrackState::L11 => 10,
            TrackState::L12 => 11,
            TrackState::L13 => 12,
        }
    }
}

impl Track {
    pub fn new(name: String, distance: u64) -> (t: Track)
        requires
            1 <= distance,
        ensures
            t.name@ == name@,
            t.distance == distance,
    {
        Track { name, distance }
    }

    /// How many simulated seconds a train at the given speed occupies this
    /// segment: the floor of distance over speed. A speed of zero would be a
    /// division fault, which the speed bounds rule out.
    pub fn traversal_time(&self, velocity: u64) -> (t: u64)
        requires
            1 <= velocity,
        ensures
            t as int == self.distance as int / velocity as int,
    {
        self.distance / velocity
    }
}

} // verus!
