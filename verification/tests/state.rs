use rrc::state::State::{Inactive, Started, Starting, Stopped, Stopping};
use rrc::state::{Flag, Flags, InvalidTransition, State, Status};

const ALL: [State; 5] = [Stopped, Started, Stopping, Starting, Inactive];

/// Every transition the state machine is meant to allow.
const ALLOWED: [(State, State); 12] = [
    // start() called
    (Stopped, Starting),
    (Inactive, Starting),
    // start() resolves
    (Starting, Started),
    (Starting, Inactive),
    (Starting, Stopped),
    // stop() called
    (Started, Stopping),
    (Inactive, Stopping),
    // stop() resolves
    (Stopping, Stopped),
    (Stopping, Started),
    (Stopping, Inactive),
    // the process died on its own, no stop() ever ran
    (Started, Stopped),
    (Inactive, Stopped),
];

/// Applies each step in turn, panicking with the rejected pair if one is refused.
fn walk(start: State, path: &[State]) -> State {
    path.iter().fold(start, |current, &next| {
        current
            .transition(next)
            .unwrap_or_else(|e| panic!("unexpected rejection: {}", e.to_string()))
    })
}

#[test]
fn matrix_matches_the_table() {
    for from in ALL {
        for to in ALL {
            let expected = ALLOWED.contains(&(from, to));
            let actual = from.transition(to).is_ok();
            assert_eq!(actual, expected, "{from:?} -> {to:?}");
        }
    }
}

#[test]
fn transition_yields_the_target_state() {
    assert_eq!(Stopped.transition(Starting).unwrap(), Starting);
}

#[test]
fn no_state_transitions_to_itself() {
    for state in ALL {
        assert!(state.transition(state).is_err(), "{state:?} -> itself");
    }
}

#[test]
fn normal_lifecycle_is_allowed() {
    assert_eq!(walk(Stopped, &[Starting, Started, Stopping, Stopped]), Stopped);
}

#[test]
fn warm_up_lifecycle_is_allowed() {
    // Starting -> Inactive means alive but not ready yet; it may then finish coming up.
    assert_eq!(walk(Stopped, &[Starting, Inactive, Starting, Started]), Started);
}

#[test]
fn crash_and_aborted_stop_are_allowed() {
    assert_eq!(walk(Started, &[Stopped]), Stopped); // died on its own
    assert_eq!(walk(Started, &[Stopping, Started]), Started); // stop aborted
}

#[test]
fn starting_cannot_be_reached_from_started_or_stopping() {
    // A running service must go through stop() before it can start again.
    assert!(Started.transition(Starting).is_err());
    assert!(Stopping.transition(Starting).is_err());
}

#[test]
fn rejection_names_both_states() {
    let err = Stopped.transition(Started).unwrap_err().to_string();
    assert!(err.contains("Stopped") && err.contains("Started"), "{err}");
}

#[test]
fn default_status_is_stopped_without_flags() {
    let status = Status::default();
    assert_eq!(status.state, Stopped);
    assert!(status.flags.is_empty());
}

#[test]
fn rejection_carries_both_ends_and_exact_message() {
    let err = Stopping.transition(Starting).unwrap_err();
    assert_eq!(err, InvalidTransition { from: Stopping, to: Starting });
    assert_eq!(err.to_string(), "invalid state transition: Stopping -> Starting");
}

#[test]
fn state_names_and_default() {
    assert_eq!(State::default(), Stopped);
    let names: Vec<&str> = ALL.iter().map(|s| s.name()).collect();
    assert_eq!(names, ["Stopped", "Started", "Stopping", "Starting", "Inactive"]);
}

#[test]
fn flags_insert_and_remove_touch_only_their_flag() {
    let mut flags = Flags::default();
    assert!(flags.is_empty());
    flags.insert(Flags::FAILED);
    flags.insert(Flags::CRASHED);
    assert!(flags.contains(Flag::Failed));
    assert!(flags.contains(Flag::Crashed));
    assert!(!flags.contains(Flags::SCHEDULED));
    assert!(!flags.contains(Flags::WAS_INACTIVE));
    flags.remove(Flags::FAILED);
    assert!(!flags.contains(Flag::Failed));
    assert!(flags.contains(Flag::Crashed));
    assert!(!flags.is_empty());
    flags.remove(Flags::CRASHED);
    assert!(flags.is_empty());
    assert_eq!(flags, Flags::empty());
}

#[test]
fn flag_bits_are_distinct_powers_of_two() {
    let bits: Vec<u8> = [Flag::Failed, Flag::Scheduled, Flag::WasInactive, Flag::Crashed]
        .iter()
        .map(|f| f.bit())
        .collect();
    assert_eq!(bits, [1, 2, 4, 8]);
}
