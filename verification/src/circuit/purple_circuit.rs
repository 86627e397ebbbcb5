//! The purple train's circuit: four exclusive segments through the middle of
//! the layout.

use vstd::prelude::*;

use crate::circuit::Circuit;
use crate::circuit::ConfigError;
use crate::circuit::Route;
use crate::circuit::Step;
use crate::circuit::route_error;
use crate::circuit::route_initial;
use crate::circuit::route_valid;
use crate::circuit::run_route;
use crate::circuit::steps_error;
use crate::network::SegmentNetwork;
use crate::observer::PositionCell;
use crate::track::TrackState;
use crate::Train;

verus! {

/// The purple route.
pub open spec fn purple_route() -> Seq<Step> {
    seq![
        Step::Exclusive(TrackState::L7),
        Step::Exclusive(TrackState::L5),
        Step::Exclusive(TrackState::L6),
        Step::Exclusive(TrackState::L3),
    ]
}

/// The purple route is accepted exactly on networks that reach its highest
/// segment.
proof fn lemma_purple_route_error(n: int)
    ensures
        (route_error(purple_route(), n) is None) == (n >= 7),
{
    let s = purple_route();
    let s1 = s.drop_first();
    let s2 = s1.drop_first();
    let s3 = s2.drop_first();
    let s4 = s3.drop_first();
    assert(s1[0] == Step::Exclusive(TrackState::L5));
    assert(s2[0] == Step::Exclusive(TrackState::L6));
    assert(s3[0] == Step::Exclusive(TrackState::L3));
    assert(s4.len() == 0);
    assert(steps_error(s4, n) is None);
    assert((steps_error(s3, n) is None) == (n >= 3));
    assert((steps_error(s2, n) is None) == (n >= 6));
    assert((steps_error(s1, n) is None) == (n >= 6));
    assert((steps_error(s, n) is None) == (n >= 7));
}

#[derive(Debug)]
pub struct PurpleCircuit {
    pub route: Route,
}

impl PurpleCircuit {
    /// Fix the purple route over the given network. Construction fails, and
    /// startup is expected to abort, exactly when the network lacks one of
    /// the route's segments.
    pub fn new(net: &SegmentNetwork) -> (r: Result<PurpleCircuit, ConfigError>)
        ensures
            (match r {
                Ok(c) => c.route.steps@ == purple_route() && route_valid(
                    purple_route(),
                    net.len_spec(),
                ),
                Err(e) => route_error(purple_route(), net.len_spec()) == Some(e),
            }),
            (r is Ok) == (net.len_spec() >= 7),
    {
        let mut steps: Vec<Step> = Vec::new();
        steps.push(Step::Exclusive(TrackState::L7));
        steps.push(Step::Exclusive(TrackState::L5));
        steps.push(Step::Exclusive(TrackState::L6));
        steps.push(Step::Exclusive(TrackState::L3));
        proof {
            assert(steps@ =~= purple_route());
            lemma_purple_route_error(net.len_spec());
        }
        match Route::new(steps, net.segment_count()) {
            Ok(route) => Ok(PurpleCircuit { route }),
            Err(e) => Err(e),
        }
    }
}

impl Circuit for PurpleCircuit {
    open spec fn route_of(&self) -> Seq<Step> {
        self.route.steps@
    }

    fn run(&self, net: &mut SegmentNetwork, sink: &mut PositionCell, train: &Train) -> (trace:
        Vec<(TrackState, u64)>) {
        run_route(&self.route, net, sink, train)
    }

    fn initial_track_state(&self) -> (t: TrackState) {
        route_initial(&self.route)
    }
}

} // verus!
