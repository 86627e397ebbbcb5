//! The batch-hold protocol observed mid-lap, contention between runners, and
//! the construction-time defence against deadlock-prone acquisition orders.

use tracks::circuit::ConfigError;
use tracks::circuit::LapRunner;
use tracks::circuit::Route;
use tracks::circuit::Step;
use tracks::circuit::StepOutcome;
use tracks::network::new_segment_network;
use tracks::observer::PositionCell;
use tracks::track::TrackState;
use tracks::Train;

#[test]
fn batch_hold_acquires_all_before_publishing_then_frees_one_at_a_time() {
    let mut net = new_segment_network(3, 4);
    let route = Route::new(
        vec![Step::BatchHold(
            vec![TrackState::L1, TrackState::L2, TrackState::L3],
            vec![TrackState::L1, TrackState::L2, TrackState::L3],
        )],
        3,
    )
    .unwrap();
    let train = Train::new(5, 2);
    let mut sink = PositionCell::new(TrackState::L1);
    let mut runner = LapRunner::start(&route, &net, train.id);

    assert_eq!(
        runner.step(&route, &mut net, &mut sink, &train),
        StepOutcome::Acquired(TrackState::L1)
    );
    assert!(net.is_free(TrackState::L2));
    assert_eq!(
        runner.step(&route, &mut net, &mut sink, &train),
        StepOutcome::Acquired(TrackState::L2)
    );
    assert_eq!(
        runner.step(&route, &mut net, &mut sink, &train),
        StepOutcome::Acquired(TrackState::L3)
    );
    // the hold window: every batch segment is unavailable before any
    // position has been published
    assert!(!net.is_free(TrackState::L1));
    assert!(!net.is_free(TrackState::L2));
    assert!(!net.is_free(TrackState::L3));
    assert_eq!(sink.read(), TrackState::L1);

    assert_eq!(
        runner.step(&route, &mut net, &mut sink, &train),
        StepOutcome::Traversed(TrackState::L1, 2)
    );
    assert_eq!(sink.read(), TrackState::L1);
    assert!(!net.is_free(TrackState::L1));
    assert_eq!(
        runner.step(&route, &mut net, &mut sink, &train),
        StepOutcome::Released(TrackState::L1)
    );
    // released one at a time, in the declared order, holding the rest
    assert!(net.is_free(TrackState::L1));
    assert!(!net.is_free(TrackState::L2));
    assert!(!net.is_free(TrackState::L3));

    assert_eq!(
        runner.step(&route, &mut net, &mut sink, &train),
        StepOutcome::Traversed(TrackState::L2, 2)
    );
    assert_eq!(
        runner.step(&route, &mut net, &mut sink, &train),
        StepOutcome::Released(TrackState::L2)
    );
    assert!(net.is_free(TrackState::L2));
    assert!(!net.is_free(TrackState::L3));

    assert_eq!(
        runner.step(&route, &mut net, &mut sink, &train),
        StepOutcome::Traversed(TrackState::L3, 2)
    );
    assert_eq!(
        runner.step(&route, &mut net, &mut sink, &train),
        StepOutcome::Released(TrackState::L3)
    );
    assert!(net.is_free(TrackState::L3));
    assert!(runner.lap_done(&route));
    assert_eq!(sink.read(), TrackState::L3);
}

#[test]
fn a_contender_blocks_on_a_held_segment_and_nothing_changes() {
    let mut net = new_segment_network(3, 5);
    let shared = Route::new(vec![Step::Exclusive(TrackState::L2)], 3).unwrap();
    let first = Train::new(1, 2);
    let second = Train::new(2, 2);
    let mut sink1 = PositionCell::new(TrackState::L2);
    let mut sink2 = PositionCell::new(TrackState::L2);
    let mut runner1 = LapRunner::start(&shared, &net, first.id);
    let mut runner2 = LapRunner::start(&shared, &net, second.id);

    assert_eq!(
        runner1.step(&shared, &mut net, &mut sink1, &first),
        StepOutcome::Acquired(TrackState::L2)
    );
    // mutual exclusion: the second train cannot enter and the holder stays
    assert_eq!(
        runner2.step(&shared, &mut net, &mut sink2, &second),
        StepOutcome::Blocked(TrackState::L2)
    );
    assert_eq!(net.holder(TrackState::L2), Some(1));

    assert!(matches!(
        runner1.step(&shared, &mut net, &mut sink1, &first),
        StepOutcome::Traversed(TrackState::L2, _)
    ));
    assert_eq!(
        runner1.step(&shared, &mut net, &mut sink1, &first),
        StepOutcome::Released(TrackState::L2)
    );
    // first contender to re-attempt wins: no queue was kept
    assert_eq!(
        runner2.step(&shared, &mut net, &mut sink2, &second),
        StepOutcome::Acquired(TrackState::L2)
    );
    assert_eq!(net.holder(TrackState::L2), Some(2));
}

#[test]
fn a_batch_requesting_against_the_global_order_is_rejected() {
    // requesting high before low could deadlock against a low-to-high
    // contender in a circular wait: construction refuses it
    let descending = Route::new(
        vec![Step::BatchHold(
            vec![TrackState::L5, TrackState::L2],
            vec![TrackState::L5, TrackState::L2],
        )],
        13,
    );
    assert_eq!(descending.unwrap_err(), ConfigError::UnorderedBatch);
    // the same two segments requested low-to-high are accepted
    let ascending = Route::new(
        vec![Step::BatchHold(
            vec![TrackState::L2, TrackState::L5],
            vec![TrackState::L5, TrackState::L2],
        )],
        13,
    );
    assert!(ascending.is_ok());
}

#[test]
fn every_construction_error_is_reported() {
    assert_eq!(Route::new(vec![], 13).unwrap_err(), ConfigError::EmptyRoute);
    assert_eq!(
        Route::new(vec![Step::BatchHold(vec![], vec![])], 13).unwrap_err(),
        ConfigError::EmptyBatch
    );
    assert_eq!(
        Route::new(vec![Step::Exclusive(TrackState::L13)], 4).unwrap_err(),
        ConfigError::SegmentOutOfRange
    );
    assert_eq!(
        Route::new(
            vec![Step::BatchHold(
                vec![TrackState::L1, TrackState::L2],
                vec![TrackState::L1, TrackState::L3],
            )],
            13,
        )
        .unwrap_err(),
        ConfigError::MismatchedRelease
    );
    assert_eq!(
        Route::new(
            vec![Step::BatchHold(
                vec![TrackState::L1, TrackState::L2],
                vec![TrackState::L1, TrackState::L1],
            )],
            13,
        )
        .unwrap_err(),
        ConfigError::MismatchedRelease
    );
    assert!(Route::new(vec![Step::Exclusive(TrackState::L1)], 13).is_ok());
}

#[test]
fn the_position_cell_keeps_the_last_written_segment() {
    let mut cell = PositionCell::new(TrackState::L9);
    assert_eq!(cell.read(), TrackState::L9);
    cell.write(TrackState::L4);
    assert_eq!(cell.read(), TrackState::L4);
}
