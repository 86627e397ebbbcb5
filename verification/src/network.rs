//! The shared segment network: every track of the layout together with a
//! record of which train, if any, currently holds each segment. A segment has
//! room for at most one holder, which is the mutual-exclusion guarantee.

use vstd::prelude::*;

use crate::track::Track;
use crate::track::TrackState;

verus! {

/// The network of track segments shared by all circuits. Each slot of
/// `holders` names the train occupying the matching track, or nothing when
/// the segment is available.
pub struct SegmentNetwork {
    pub tracks: Vec<Track>,
    pub holders: Vec<Option<u64>>,
}

impl SegmentNetwork {
    /// One holder slot per track.
    pub open spec fn wf(self) -> bool {
        self.holders@.len() == self.tracks@.len()
    }

    pub open spec fn len_spec(self) -> int {
        self.tracks@.len() as int
    }

    pub open spec fn holder_spec(self, j: int) -> Option<u64> {
        self.holders@[j]
    }

    pub open spec fn distance_spec(self, j: int) -> int {
        self.tracks@[j].distance as int
    }

    /// Every segment is available.
    pub open spec fn all_free(self) -> bool {
        forall|j: int| 0 <= j < self.len_spec() ==> self.holder_spec(j) is None
    }

    /// The given train holds no segment at all.
    pub open spec fn holds_none(self, train_id: u64) -> bool {
        forall|j: int|
            0 <= j < self.len_spec() ==> self.holder_spec(j) != Some(train_id)
    }

    pub fn segment_count(&self) -> (n: usize)
        ensures
            n == self.len_spec(),
    {
        self.tracks.len()
    }

    /// Whether the segment is currently available, the renderer-facing probe
    /// a contender would consult before attempting an acquisition.
    pub fn is_free(&self, seg: TrackState) -> (b: bool)
        requires
            self.wf(),
            seg.index_spec() < self.len_spec(),
        ensures
            b == (self.holder_spec(seg.index_spec()) is None),
    {
        let i = seg.index();
        self.holders[i].is_none()
    }

    pub fn holder(&self, seg: TrackState) -> (h: Option<u64>)
        requires
            self.wf(),
            seg.index_spec() < self.len_spec(),
        ensures
            h == self.holder_spec(seg.index_spec()),
    {
        let i = seg.index();
        self.holders[i]
    }

    pub fn distance_of(&self, seg: TrackState) -> (d: u64)
        requires
            seg.index_spec() < self.len_spec(),
        ensures
            d as int == self.distance_spec(seg.index_spec()),
    {
        let i = seg.index();
        self.tracks[i].distance
    }

    /// Grant the free segment to the given train. At most one train can ever
    /// hold a segment because a holder slot has room for one occupant.
    pub fn acquire(&mut self, seg: TrackState, train_id: u64)
        requires
            old(self).wf(),
            seg.index_spec() < old(self).len_spec(),
            old(self).holder_spec(seg.index_spec()) is None,
        ensures
            final(self).wf(),
            final(self).tracks@ == old(self).tracks@,
            final(self).holders@ == old(self).holders@.update(
                seg.index_spec(),
                Some(train_id),
            ),
    {
        let i = seg.index();
        self.holders[i] = Some(train_id);
    }

    /// Give the segment held by the given train back to the network.
    pub fn release(&mut self, seg: TrackState, train_id: u64)
        requires
            old(self).wf(),
            seg.index_spec() < old(self).len_spec(),
            old(self).holder_spec(seg.index_spec()) == Some(train_id),
        ensures
            final(self).wf(),
            final(self).tracks@ == old(self).tracks@,
            final(self).holders@ == old(self).holders@.update(
                seg.index_spec(),
                None::<u64>,
            ),
    {
        let i = seg.index();
        self.holders[i] = None;
    }
}

/// Build the startup network: `count` segments, every one of the same given
/// length, every one available, with empty display names.
pub fn new_segment_network(count: usize, distance: u64) -> (net: SegmentNetwork)
    requires
        1 <= distance,
    ensures
        net.wf(),
        net.len_spec() == count,
        net.all_free(),
        forall|j: int| 0 <= j < count ==> net.distance_spec(j) == distance,
{
    let mut tracks: Vec<Track> = Vec::new();
    let mut holders: Vec<Option<u64>> = Vec::new();
    let mut i: usize = 0;
    while i < count
        invariant
            i <= count,
            tracks@.len() == i,
            holders@.len() == i,
            forall|j: int| 0 <= j < i ==> tracks@[j].distance == distance,
            forall|j: int| 0 <= j < i ==> holders@[j] is None,
            1 <= distance,
        decreases count - i,
    {
        tracks.push(Track::new(String::new(), distance));
        holders.push(None);
        i = i + 1;
    }
    SegmentNetwork { tracks, holders }
}

} // verus!
