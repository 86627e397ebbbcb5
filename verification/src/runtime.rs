//! The per-train runtime: the loop binding one train to one circuit. The real
//! loop never ends — shutdown is whole-process termination — so the verified
//! driver runs a chosen number of laps, which is also how tests drive a
//! circuit deterministically. At the top of every lap the driver uses the one
//! speed snapshot it is given; a speed command applied mid-lap is seen only
//! when the next lap begins.

use vstd::prelude::*;

use crate::circuit::Circuit;
use crate::circuit::route_first;
use crate::circuit::route_publishes;
use crate::circuit::route_valid;
use crate::circuit::lemma_route_first_published;
use crate::network::SegmentNetwork;
use crate::observer::PositionCell;
use crate::track::TrackState;
use crate::Train;

verus! {

/// Drive a circuit for the given number of complete laps and return every
/// published position in order, with the simulated seconds each was held.
/// The trace is the one lap's publications repeated: entry `i` is position
/// `i % L` of the lap, for `L` positions per lap.
pub fn run_laps<C: Circuit>(
    circuit: &C,
    net: &mut SegmentNetwork,
    sink: &mut PositionCell,
    train: &Train,
    laps: usize,
) -> (trace: Vec<(TrackState, u64)>)
    requires
        old(net).wf(),
        train.valid(),
        route_valid(circuit.route_of(), old(net).len_spec()),
        old(net).all_free(),
    ensures
        final(net).wf(),
        final(net).len_spec() == old(net).len_spec(),
        final(net).tracks@ == old(net).tracks@,
        final(net).all_free(),
        trace@.len() == laps * route_publishes(circuit.route_of()).len(),
        forall|i: int|
            0 <= i < trace@.len() ==> trace@[i].0 == route_publishes(circuit.route_of())[i % (
            route_publishes(circuit.route_of()).len() as int)],
        forall|i: int|
            0 <= i < trace@.len() ==> trace@[i].1 as int == old(net).distance_spec(
                trace@[i].0.index_spec(),
            ) / (train.velocity as int),
        trace@.len() > 0 ==> final(sink).current == trace@[trace@.len() - 1].0,
        laps == 0 ==> *final(sink) == *old(sink),
{
    let ghost steps = circuit.route_of();
    let ghost pubs = route_publishes(steps);
    let ghost n0 = old(net).len_spec();
    proof {
        lemma_route_first_published(steps, n0);
    }
    let mut trace: Vec<(TrackState, u64)> = Vec::new();
    let mut lap: usize = 0;
    while lap < laps
        invariant
            steps == circuit.route_of(),
            pubs == route_publishes(steps),
            pubs.len() > 0,
            lap <= laps,
            net.wf(),
            net.len_spec() == n0,
            net.tracks@ == old(net).tracks@,
            net.all_free(),
            route_valid(steps, n0),
            train.valid(),
            trace@.len() == lap * pubs.len(),
            forall|i: int|
                0 <= i < trace@.len() ==> trace@[i].0 == pubs[i % (pubs.len() as int)],
            forall|i: int|
                0 <= i < trace@.len() ==> trace@[i].1 as int == net.distance_spec(
                    trace@[i].0.index_spec(),
                ) / (train.velocity as int),
            trace@.len() > 0 ==> sink.current == trace@[trace@.len() - 1].0,
            lap == 0 ==> *sink == *old(sink),
        decreases laps - lap,
    {
        let ghost trace_pre = trace@;
        let mut lap_trace = circuit.run(net, sink, train);
        let ghost lap_pub = lap_trace@;
        trace.append(&mut lap_trace);
        proof {
            let len = pubs.len() as int;
            assert((lap + 1) * pubs.len() == lap * pubs.len() + pubs.len()) by (nonlinear_arith);
            assert forall|i: int|
                0 <= i < trace@.len() implies trace@[i].0 == pubs[i % len] by {
                if i < trace_pre.len() {
                    assert(trace@[i] == trace_pre[i]);
                } else {
                    let b = i - trace_pre.len();
                    assert(trace@[i] == lap_pub[b]);
                    assert(lap_pub[b].0 == pubs[b]);
                    assert(trace_pre.len() == (lap as int) * len);
                    assert(len * (lap as int) + b == i) by (nonlinear_arith)
                        requires
                            trace_pre.len() == (lap as int) * len,
                            i == trace_pre.len() + b,
                    ;
                    vstd::arithmetic::div_mod::lemma_mod_multiples_vanish(lap as int, b, len);
                    vstd::arithmetic::div_mod::lemma_small_mod(b as nat, len as nat);
                }
            }
        }
        lap = lap + 1;
    }
    trace
}

/// Law: laps are cyclic. In any trace of complete laps, the position at which
/// lap `k` starts publishing is always the circuit's initial state — the
/// route's first segment — so after any number of laps the train starts over
/// where `initial_track_state` first rendered it.
pub proof fn lemma_laps_cyclic(
    steps: Seq<crate::circuit::Step>,
    n: int,
    laps: int,
    k: int,
    positions: Seq<TrackState>,
)
    requires
        route_valid(steps, n),
        positions.len() == laps * route_publishes(steps).len(),
        forall|i: int|
            0 <= i < positions.len() ==> positions[i] == route_publishes(steps)[i % (
            route_publishes(steps).len() as int)],
        0 <= k < laps,
    ensures
        positions[k * (route_publishes(steps).len() as int)] == route_first(steps),
{
    lemma_route_first_published(steps, n);
    let len = route_publishes(steps).len() as int;
    assert(k * len < laps * len) by (nonlinear_arith)
        requires
            k < laps,
            len > 0,
    ;
    assert(k * len >= 0) by (nonlinear_arith)
        requires
            k >= 0,
            len > 0,
    ;
    assert(len * k + 0 == k * len) by (nonlinear_arith);
    vstd::arithmetic::div_mod::lemma_mod_multiples_vanish(k, 0, len);
    vstd::arithmetic::div_mod::lemma_small_mod(0, len as nat);
}

} // verus!
