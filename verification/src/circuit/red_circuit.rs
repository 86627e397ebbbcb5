//! The red train's circuit: four exclusive segments along the right of the
//! layout.

use vstd::prelude::*;

use crate::circuit::Circuit;
use crate::circuit::ConfigError;
use crate::circuit::Route;
use crate::circuit::Step;
use crate::circuit::route_error;
use crate::circuit::route_initial;
use crate::circuit::route_valid;
use crate::circuit::run_route;
use crate::circuit::steps_error;
use crate::network::SegmentNetwork;
use crate::observer::PositionCell;
use crate::track::TrackState;
use crate::Train;

verus! {

/// The red route.
pub open spec fn red_route() -> Seq<Step> {
    seq![
        Step::Exclusive(TrackState::L8),
        Step::Exclusive(TrackState::L9),
        Step::Exclusive(TrackState::L10),
        Step::Exclusive(TrackState::L5),
    ]
}

/// The red route is accepted exactly on networks that reach its highest
/// segment.
proof fn lemma_red_route_error(n: int)
    ensures
        (route_error(red_route(), n) is None) == (n >= 10),
{
    let s = red_route();
    let s1 = s.drop_first();
    let s2 = s1.drop_first();
    let s3 = s2.drop_first();
    let s4 = s3.drop_first();
    assert(s1[0] == Step::Exclusive(TrackState::L9));
    assert(s2[0] == Step::Exclusive(TrackState::L10));
    assert(s3[0] == Step::Exclusive(TrackState::L5));
    assert(s4.len() == 0);
    assert(steps_error(s4, n) is None);
    assert((steps_error(s3, n) is None) == (n >= 5));
    assert((steps_error(s2, n) is None) == (n >= 10));
    assert((steps_error(s1, n) is None) == (n >= 10));
    assert((steps_error(s, n) is None) == (n >= 10));
}

#[derive(Debug)]
pub struct RedCircuit {
    pub route: Route,
}

impl RedCircuit {
    /// Fix the red route over the given network. Construction fails, and
    /// startup is expected to abort, exactly when the network lacks one of
    /// the route's segments.
    pub fn new(net: &SegmentNetwork) -> (r: Result<RedCircuit, ConfigError>)
        ensures
            (match r {
                Ok(c) => c.route.steps@ == red_route() && route_valid(
                    red_route(),
                    net.len_spec(),
                ),
                Err(e) => route_error(red_route(), net.len_spec()) == Some(e),
            }),
            (r is Ok) == (net.len_spec() >= 10),
    {
        let mut steps: Vec<Step> = Vec::new();
        steps.push(Step::Exclusive(TrackState::L8));
        steps.push(Step::Exclusive(TrackState::L9));
        steps.push(Step::Exclusive(TrackState::L10));
        steps.push(Step::Exclusive(TrackState::L5));
        proof {
            assert(steps@ =~= red_route());
            lemma_red_route_error(net.len_spec());
        }
        match Route::new(steps, net.segment_count()) {
            Ok(route) => Ok(RedCircuit { route }),
            Err(e) => Err(e),
        }
    }
}

impl Circuit for RedCircuit {
    open spec fn route_of(&self) -> Seq<Step> {
        self.route.steps@
    }

    fn run(&self, net: &mut SegmentNetwork, sink: &mut PositionCell, train: &Train) -> (trace:
        Vec<(TrackState, u64)>) {
        run_route(&self.route, net, sink, train)
    }

    fn initial_track_state(&self) -> (t: TrackState) {
        route_initial(&self.route)
    }
}

} // verus!
