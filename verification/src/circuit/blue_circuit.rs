//! The blue train's circuit: three exclusive segments around the outer loop,
//! then a three-segment batch hold across the junction region. The batch is
//! acquired in ascending label order — the one global acquisition order — and
//! released front to back, the train freeing track behind it one block at a
//! time while still holding the rest.

use vstd::prelude::*;

use crate::circuit::Circuit;
use crate::circuit::ConfigError;
use crate::circuit::Route;
use crate::circuit::Step;
use crate::circuit::distinct_indices;
use crate::circuit::release_matches;
use crate::circuit::route_error;
use crate::circuit::route_first;
use crate::circuit::route_initial;
use crate::circuit::route_publishes;
use crate::circuit::route_valid;
use crate::circuit::run_route;
use crate::circuit::segs_in_range;
use crate::circuit::step_error;
use crate::circuit::steps_error;
use crate::circuit::strictly_increasing;
use crate::network::SegmentNetwork;
use crate::observer::PositionCell;
use crate::track::TrackState;
use crate::Train;

verus! {

/// The order of positions one blue lap publishes.
pub open spec fn blue_publishes() -> Seq<TrackState> {
    seq![
        TrackState::L12,
        TrackState::L13,
        TrackState::L11,
        TrackState::L4,
        TrackState::L6,
        TrackState::L10,
    ]
}

/// The blue route is accepted exactly on the full thirteen-segment network,
/// and always for want of a segment, never for its batch ordering.
proof fn lemma_blue_route_error(
    steps: Seq<Step>,
    hold: Vec<TrackState>,
    rel: Vec<TrackState>,
    n: int,
)
    requires
        steps.len() == 4,
        steps[0] == Step::Exclusive(TrackState::L12),
        steps[1] == Step::Exclusive(TrackState::L13),
        steps[2] == Step::Exclusive(TrackState::L11),
        steps[3] == Step::BatchHold(hold, rel),
        hold@ == seq![TrackState::L4, TrackState::L6, TrackState::L10],
        rel@ == hold@,
    ensures
        (route_error(steps, n) is None) == (n >= 13),
        n < 13 ==> route_error(steps, n) == Some(ConfigError::SegmentOutOfRange),
        route_publishes(steps) == blue_publishes(),
{
    let s1 = steps.drop_first();
    let s2 = s1.drop_first();
    let s3 = s2.drop_first();
    let s4 = s3.drop_first();
    assert(s1[0] == steps[1]);
    assert(s2[0] == steps[2]);
    assert(s3[0] == steps[3]);
    assert(s4.len() == 0);
    assert(hold@.len() == 3);
    assert(strictly_increasing(hold@)) by {
        assert forall|i: int, k: int|
            0 <= i < k < hold@.len() implies hold@[i].index_spec() < hold@[k].index_spec() by {
            assert(hold@[0].index_spec() == 3);
            assert(hold@[1].index_spec() == 5);
            assert(hold@[2].index_spec() == 9);
        }
    }
    assert(distinct_indices(rel@));
    assert forall|i: int| 0 <= i < rel@.len() implies hold@.contains(rel@[i]) by {
        assert(hold@[i] == rel@[i]);
    }
    assert forall|i: int| 0 <= i < hold@.len() implies rel@.contains(hold@[i]) by {
        assert(rel@[i] == hold@[i]);
    }
    assert(release_matches(hold@, rel@));
    assert((segs_in_range(hold@, n)) == (n >= 10)) by {
        if n >= 10 {
            assert forall|i: int| 0 <= i < hold@.len() implies hold@[i].index_spec() < n by {
                assert(hold@[2].index_spec() == 9);
            }
        } else {
            assert(hold@[2].index_spec() == 9);
        }
    }
    assert((step_error(steps[3], n) is None) == (n >= 10));
    assert(n < 10 ==> step_error(steps[3], n) == Some(ConfigError::SegmentOutOfRange));
    assert(steps_error(s4, n) is None);
    assert((steps_error(s3, n) is None) == (n >= 10));
    assert((steps_error(s2, n) is None) == (n >= 11));
    assert((steps_error(s1, n) is None) == (n >= 13));
    assert((steps_error(steps, n) is None) == (n >= 13));
    let d1 = steps.drop_last();
    let d2 = d1.drop_last();
    let d3 = d2.drop_last();
    let d4 = d3.drop_last();
    assert(d4.len() == 0);
    assert(d3.last() == steps[0]);
    assert(d2.last() == steps[1]);
    assert(d1.last() == steps[2]);
    assert(steps.last() == steps[3]);
    assert(route_publishes(d4) == Seq::<TrackState>::empty());
    assert(route_publishes(d3) =~= seq![TrackState::L12]);
    assert(route_publishes(d2) =~= seq![TrackState::L12, TrackState::L13]);
    assert(route_publishes(d1) =~= seq![TrackState::L12, TrackState::L13, TrackState::L11]);
    assert(route_publishes(steps) =~= blue_publishes());
}

#[derive(Debug)]
pub struct BlueCircuit {
    pub route: Route,
}

impl BlueCircuit {
    /// Fix the blue route over the given network. Construction fails, and
    /// startup is expected to abort, exactly when the network lacks one of
    /// the route's segments; the built-in batch hold always satisfies the
    /// ascending-order rule.
    pub fn new(net: &SegmentNetwork) -> (r: Result<BlueCircuit, ConfigError>)
        ensures
            (match r {
                Ok(c) => {
                    &&& route_valid(c.route.steps@, net.len_spec())
                    &&& c.route.steps@.len() == 4
                    &&& c.route.steps@[0] == Step::Exclusive(TrackState::L12)
                    &&& c.route.steps@[1] == Step::Exclusive(TrackState::L13)
                    &&& c.route.steps@[2] == Step::Exclusive(TrackState::L11)
                    &&& (c.route.steps@[3] matches Step::BatchHold(hold, rel) && hold@ == seq![
                        TrackState::L4,
                        TrackState::L6,
                        TrackState::L10,
                    ] && rel@ == seq![TrackState::L4, TrackState::L6, TrackState::L10])
                    &&& route_publishes(c.route.steps@) == blue_publishes()
                    &&& route_first(c.route.steps@) == TrackState::L12
                },
                Err(e) => e == ConfigError::SegmentOutOfRange && net.len_spec() < 13,
            }),
            (r is Ok) == (net.len_spec() >= 13),
    {
        let mut hold: Vec<TrackState> = Vec::new();
        hold.push(TrackState::L4);
        hold.push(TrackState::L6);
        hold.push(TrackState::L10);
        let mut rel: Vec<TrackState> = Vec::new();
        rel.push(TrackState::L4);
        rel.push(TrackState::L6);
        rel.push(TrackState::L10);
        let ghost hold_g = hold;
        let ghost rel_g = rel;
        let mut steps: Vec<Step> = Vec::new();
        steps.push(Step::Exclusive(TrackState::L12));
        steps.push(Step::Exclusive(TrackState::L13));
        steps.push(Step::Exclusive(TrackState::L11));
        steps.push(Step::BatchHold(hold, rel));
        proof {
            assert(hold_g@ =~= seq![TrackState::L4, TrackState::L6, TrackState::L10]);
            assert(rel_g@ =~= hold_g@);
            lemma_blue_route_error(steps@, hold_g, rel_g, net.len_spec());
        }
        match Route::new(steps, net.segment_count()) {
            Ok(route) => Ok(BlueCircuit { route }),
            Err(e) => Err(e),
        }
    }
}

impl Circuit for BlueCircuit {
    open spec fn route_of(&self) -> Seq<Step> {
        self.route.steps@
    }

    fn run(&self, net: &mut SegmentNetwork, sink: &mut PositionCell, train: &Train) -> (trace:
        Vec<(TrackState, u64)>) {
        run_route(&self.route, net, sink, train)
    }

    fn initial_track_state(&self) -> (t: TrackState) {
        route_initial(&self.route)
    }
}

} // verus!
