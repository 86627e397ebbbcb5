//! The four colour circuits: construction, initial positions, full laps and
//! lap cyclicity.

use tracks::circuit::BlueCircuit;
use tracks::circuit::Circuit;
use tracks::circuit::ConfigError;
use tracks::circuit::GreenCircuit;
use tracks::circuit::PurpleCircuit;
use tracks::circuit::RedCircuit;
use tracks::network::new_segment_network;
use tracks::observer::PositionCell;
use tracks::runtime::run_laps;
use tracks::track::TrackState;
use tracks::Train;

#[test]
fn initial_positions_are_the_first_route_segments() {
    let net = new_segment_network(13, 5);
    let green = GreenCircuit::new(&net).unwrap();
    let purple = PurpleCircuit::new(&net).unwrap();
    let red = RedCircuit::new(&net).unwrap();
    let blue = BlueCircuit::new(&net).unwrap();
    assert_eq!(green.initial_track_state(), TrackState::L1);
    assert_eq!(purple.initial_track_state(), TrackState::L7);
    assert_eq!(red.initial_track_state(), TrackState::L8);
    assert_eq!(blue.initial_track_state(), TrackState::L12);
}

#[test]
fn construction_fails_on_a_network_missing_segments() {
    let small = new_segment_network(4, 5);
    assert!(GreenCircuit::new(&small).is_ok());
    assert_eq!(
        PurpleCircuit::new(&small).unwrap_err(),
        ConfigError::SegmentOutOfRange
    );
    assert_eq!(
        RedCircuit::new(&small).unwrap_err(),
        ConfigError::SegmentOutOfRange
    );
    assert_eq!(
        BlueCircuit::new(&small).unwrap_err(),
        ConfigError::SegmentOutOfRange
    );
}

#[test]
fn green_lap_publishes_four_segments_for_two_seconds_each() {
    let mut net = new_segment_network(4, 5);
    let green = GreenCircuit::new(&net).unwrap();
    let mut sink = PositionCell::new(green.initial_track_state());
    let train = Train::new(0, 2);
    let trace = green.run(&mut net, &mut sink, &train);
    assert_eq!(
        trace,
        vec![
            (TrackState::L1, 2),
            (TrackState::L2, 2),
            (TrackState::L3, 2),
            (TrackState::L4, 2),
        ]
    );
    assert_eq!(sink.read(), TrackState::L4);
    let again = green.run(&mut net, &mut sink, &train);
    assert_eq!(again[0].0, TrackState::L1);
}

#[test]
fn blue_lap_publishes_outer_loop_then_batch_in_release_order() {
    let mut net = new_segment_network(13, 5);
    let blue = BlueCircuit::new(&net).unwrap();
    let mut sink = PositionCell::new(blue.initial_track_state());
    let train = Train::new(3, 5);
    let trace = blue.run(&mut net, &mut sink, &train);
    let positions: Vec<TrackState> = trace.iter().map(|p| p.0).collect();
    assert_eq!(
        positions,
        vec![
            TrackState::L12,
            TrackState::L13,
            TrackState::L11,
            TrackState::L4,
            TrackState::L6,
            TrackState::L10,
        ]
    );
    for (_, time) in trace.iter() {
        assert_eq!(*time, 1);
    }
    for label in [
        TrackState::L4,
        TrackState::L6,
        TrackState::L10,
        TrackState::L11,
        TrackState::L12,
        TrackState::L13,
    ] {
        assert!(net.is_free(label));
    }
}

#[test]
fn laps_are_cyclic_every_lap_starts_at_the_initial_state() {
    let mut net = new_segment_network(13, 5);
    let green = GreenCircuit::new(&net).unwrap();
    let initial = green.initial_track_state();
    let mut sink = PositionCell::new(initial);
    let train = Train::new(0, 2);
    let trace = run_laps(&green, &mut net, &mut sink, &train, 3);
    assert_eq!(trace.len(), 12);
    for lap in 0..3 {
        assert_eq!(trace[lap * 4].0, initial);
    }
    assert_eq!(sink.read(), TrackState::L4);
    for j in [TrackState::L1, TrackState::L2, TrackState::L3, TrackState::L4] {
        assert!(net.is_free(j));
    }
}

#[test]
fn a_velocity_change_lands_between_laps() {
    let mut net = new_segment_network(4, 4);
    let green = GreenCircuit::new(&net).unwrap();
    let mut sink = PositionCell::new(green.initial_track_state());
    let mut train = Train::new(0, 2);
    let snapshot = train;
    train.increment();
    // the lap runs on the snapshot taken at its start: two seconds a segment
    let trace = green.run(&mut net, &mut sink, &snapshot);
    assert_eq!(trace[0].1, 2);
    // the next lap sees the new speed: four over four gives one second
    let next = green.run(&mut net, &mut sink, &train);
    assert_eq!(next[0].1, 1);
}
