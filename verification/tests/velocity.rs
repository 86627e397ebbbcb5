//! Speed command semantics: clamped increments and decrements.

use tracks::Train;
use tracks::VelocityCommand;
use tracks::MAX_VELOCITY;
use tracks::MIN_VELOCITY;

#[test]
fn new_train_keeps_id_and_velocity() {
    let t = Train::new(3, 4);
    assert_eq!(t.id, 3);
    assert_eq!(t.velocity, 4);
}

#[test]
fn increment_raises_velocity_by_one() {
    let mut t = Train::new(0, 2);
    t.increment();
    assert_eq!(t.velocity, 3);
    assert_eq!(t.id, 0);
}

#[test]
fn increment_is_a_no_op_at_the_maximum() {
    let mut t = Train::new(0, MAX_VELOCITY);
    t.increment();
    assert_eq!(t.velocity, MAX_VELOCITY);
}

#[test]
fn decrement_lowers_velocity_by_one() {
    let mut t = Train::new(1, 3);
    t.decrement();
    assert_eq!(t.velocity, 2);
}

#[test]
fn decrement_is_a_no_op_at_the_minimum() {
    let mut t = Train::new(1, MIN_VELOCITY);
    t.decrement();
    assert_eq!(t.velocity, MIN_VELOCITY);
}

#[test]
fn ten_increments_from_one_clamp_at_six() {
    let mut t = Train::new(2, 1);
    for _ in 0..10 {
        t.increment();
    }
    assert_eq!(t.velocity, 6);
    t.increment();
    assert_eq!(t.velocity, 6);
}

#[test]
fn any_command_sequence_stays_within_bounds() {
    let commands = [
        VelocityCommand::Decrement,
        VelocityCommand::Decrement,
        VelocityCommand::Increment,
        VelocityCommand::Increment,
        VelocityCommand::Increment,
        VelocityCommand::Increment,
        VelocityCommand::Increment,
        VelocityCommand::Increment,
        VelocityCommand::Increment,
        VelocityCommand::Decrement,
    ];
    for start in MIN_VELOCITY..=MAX_VELOCITY {
        let mut t = Train::new(9, start);
        for c in commands.iter() {
            match c {
                VelocityCommand::Increment => t.increment(),
                VelocityCommand::Decrement => t.decrement(),
            }
            assert!(MIN_VELOCITY <= t.velocity && t.velocity <= MAX_VELOCITY);
        }
    }
}
