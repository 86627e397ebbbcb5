//! The position cell: the single-writer value a train's runtime publishes and
//! the renderer polls. The cell always holds the last segment the train has
//! fully entered — a position is written only after the segment is acquired.
//! Skip-on-contention reading is the concern of the unverified shell that
//! wraps the cell in a lock; the cell itself is a plain value.

use vstd::prelude::*;

use crate::track::TrackState;

verus! {

/// One train's published position.
pub struct PositionCell {
    pub current: TrackState,
}

impl PositionCell {
    pub fn new(initial: TrackState) -> (c: PositionCell)
        ensures
            c.current == initial,
    {
        PositionCell { current: initial }
    }

    /// Unconditional single-writer update, called by the runtime the moment a
    /// train has fully entered a segment.
    pub fn write(&mut self, seg: TrackState)
        ensures
            final(self).current == seg,
    {
        self.current = seg;
    }

    pub fn read(&self) -> (seg: TrackState)
        ensures
            seg == self.current,
    {
        self.current
    }
}

} // verus!
