//! The green train's circuit: four exclusive segments in label order.

use vstd::prelude::*;

use crate::circuit::Circuit;
use crate::circuit::ConfigError;
use crate::circuit::Route;
use crate::circuit::Step;
use crate::circuit::route_error;
use crate::circuit::route_initial;
use crate::circuit::route_valid;
use crate::circuit::steps_error;
use crate::circuit::run_route;
use crate::network::SegmentNetwork;
use crate::observer::PositionCell;
use crate::track::TrackState;
use crate::Train;

verus! {

/// The green route: the first four segments, each occupied alone.
pub open spec fn green_route() -> Seq<Step> {
    seq![
        Step::Exclusive(TrackState::L1),
        Step::Exclusive(TrackState::L2),
        Step::Exclusive(TrackState::L3),
        Step::Exclusive(TrackState::L4),
    ]
}

/// The green route is accepted exactly on networks with its four segments.
proof fn lemma_green_route_error(n: int)
    ensures
        (route_error(green_route(), n) is None) == (n >= 4),
{
    let s = green_route();
    let s1 = s.drop_first();
    let s2 = s1.drop_first();
    let s3 = s2.drop_first();
    let s4 = s3.drop_first();
    assert(s1[0] == Step::Exclusive(TrackState::L2));
    assert(s2[0] == Step::Exclusive(TrackState::L3));
    assert(s3[0] == Step::Exclusive(TrackState::L4));
    assert(s4.len() == 0);
    assert(steps_error(s4, n) is None);
    assert((steps_error(s3, n) is None) == (n >= 4));
    assert((steps_error(s2, n) is None) == (n >= 4));
    assert((steps_error(s1, n) is None) == (n >= 4));
    assert((steps_error(s, n) is None) == (n >= 4));
}

#[derive(Debug)]
pub struct GreenCircuit {
    pub route: Route,
}

impl GreenCircuit {
    /// Fix the green route over the given network. Construction fails, and
    /// startup is expected to abort, exactly when the network lacks one of
    /// the route's segments.
    pub fn new(net: &SegmentNetwork) -> (r: Result<GreenCircuit, ConfigError>)
        ensures
            (match r {
                Ok(c) => c.route.steps@ == green_route() && route_valid(
                    green_route(),
                    net.len_spec(),
                ),
                Err(e) => route_error(green_route(), net.len_spec()) == Some(e),
            }),
            (r is Ok) == (net.len_spec() >= 4),
    {
        let mut steps: Vec<Step> = Vec::new();
        steps.push(Step::Exclusive(TrackState::L1));
        steps.push(Step::Exclusive(TrackState::L2));
        steps.push(Step::Exclusive(TrackState::L3));
        steps.push(Step::Exclusive(TrackState::L4));
        proof {
            assert(steps@ =~= green_route());
            lemma_green_route_error(net.len_spec());
        }
        match Route::new(steps, net.segment_count()) {
            Ok(route) => Ok(GreenCircuit { route }),
            Err(e) => Err(e),
        }
    }
}

impl Circuit for GreenCircuit {
    open spec fn route_of(&self) -> Seq<Step> {
        self.route.steps@
    }

    fn run(&self, net: &mut SegmentNetwork, sink: &mut PositionCell, train: &Train) -> (trace:
        Vec<(TrackState, u64)>) {
        run_route(&self.route, net, sink, train)
    }

    fn initial_track_state(&self) -> (t: TrackState) {
        route_initial(&self.route)
    }
}

} // verus!
