//! Track segments, traversal times and the segment network.

use tracks::network::new_segment_network;
use tracks::track::Track;
use tracks::track::TrackState;
use tracks::track::SEGMENT_COUNT;

#[test]
fn traversal_time_is_floored_distance_over_velocity() {
    let t = Track::new(String::from("L1"), 5);
    assert_eq!(t.traversal_time(2), 2);
    assert_eq!(t.traversal_time(1), 5);
    assert_eq!(t.traversal_time(5), 1);
    assert_eq!(t.traversal_time(6), 0);
}

#[test]
fn track_keeps_name_and_distance() {
    let t = Track::new(String::from("L7"), 11);
    assert_eq!(t.name, "L7");
    assert_eq!(t.distance, 11);
}

#[test]
fn labels_index_the_network_in_order() {
    assert_eq!(TrackState::L1.index(), 0);
    assert_eq!(TrackState::L4.index(), 3);
    assert_eq!(TrackState::L10.index(), 9);
    assert_eq!(TrackState::L13.index(), 12);
    assert_eq!(SEGMENT_COUNT, 13);
}

#[test]
fn new_network_is_all_free_with_given_distances() {
    let net = new_segment_network(13, 5);
    assert_eq!(net.segment_count(), 13);
    assert_eq!(net.distance_of(TrackState::L1), 5);
    assert_eq!(net.distance_of(TrackState::L13), 5);
    assert!(net.is_free(TrackState::L1));
    assert!(net.is_free(TrackState::L13));
    assert_eq!(net.holder(TrackState::L6), None);
}

#[test]
fn acquire_and_release_move_one_holder() {
    let mut net = new_segment_network(13, 5);
    net.acquire(TrackState::L3, 7);
    assert!(!net.is_free(TrackState::L3));
    assert_eq!(net.holder(TrackState::L3), Some(7));
    assert!(net.is_free(TrackState::L2));
    assert!(net.is_free(TrackState::L4));
    net.release(TrackState::L3, 7);
    assert!(net.is_free(TrackState::L3));
    assert_eq!(net.holder(TrackState::L3), None);
}

#[test]
fn a_segment_has_at_most_one_holder() {
    let mut net = new_segment_network(4, 5);
    net.acquire(TrackState::L2, 0);
    assert_eq!(net.holder(TrackState::L2), Some(0));
    net.release(TrackState::L2, 0);
    net.acquire(TrackState::L2, 1);
    assert_eq!(net.holder(TrackState::L2), Some(1));
}
