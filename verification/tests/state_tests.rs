use dancepredictor::feet::Side;
use dancepredictor::state::State;
use dancepredictor::{FootPart, FootPlacement};

#[test]
fn test_state_progression() {
    let state = State::new(4);
    let state = state.append(&FootPlacement(vec![
        FootPart::LeftHeel,
        FootPart::Empty,
        FootPart::Empty,
        FootPart::Empty,
    ]));
    assert_eq!(
        state.final_columns,
        FootPlacement(vec![
            FootPart::LeftHeel,
            FootPart::Empty,
            FootPart::Empty,
            FootPart::Empty,
        ])
    );
    let state = state.append(&FootPlacement(vec![
        FootPart::Empty,
        FootPart::Empty,
        FootPart::Empty,
        FootPart::RightHeel,
    ]));
    assert_eq!(
        state.final_columns,
        FootPlacement(vec![
            FootPart::LeftHeel,
            FootPart::Empty,
            FootPart::Empty,
            FootPart::RightHeel,
        ])
    );
    let state = state.append(&FootPlacement(vec![
        FootPart::Empty,
        FootPart::LeftHeel,
        FootPart::Empty,
        FootPart::Empty,
    ]));
    assert_eq!(
        state.final_columns,
        FootPlacement(vec![
            FootPart::Empty,
            FootPart::LeftHeel,
            FootPart::Empty,
            FootPart::RightHeel,
        ])
    );
    assert_eq!(
        state.activated_columns,
        FootPlacement(vec![
            FootPart::Empty,
            FootPart::LeftHeel,
            FootPart::Empty,
            FootPart::Empty,
        ])
    );
}

#[test]
fn test_state_progression_brackets() {
    let state = State::new(4);
    let state = state.append(&FootPlacement(vec![
        FootPart::LeftHeel,
        FootPart::Empty,
        FootPart::LeftToe,
        FootPart::Empty,
    ]));
    assert_eq!(
        state.final_columns,
        FootPlacement(vec![
            FootPart::LeftHeel,
            FootPart::Empty,
            FootPart::LeftToe,
            FootPart::Empty,
        ])
    );
    let state = state.append(&FootPlacement(vec![
        FootPart::Empty,
        FootPart::Empty,
        FootPart::Empty,
        FootPart::RightHeel,
    ]));
    assert_eq!(
        state.final_columns,
        FootPlacement(vec![
            FootPart::LeftHeel,
            FootPart::Empty,
            FootPart::LeftToe,
            FootPart::RightHeel,
        ])
    );
    let state = state.append(&FootPlacement(vec![
        FootPart::Empty,
        FootPart::LeftHeel,
        FootPart::Empty,
        FootPart::Empty,
    ]));
    assert_eq!(
        state.final_columns,
        FootPlacement(vec![
            FootPart::Empty,
            FootPart::LeftHeel,
            FootPart::Empty,
            FootPart::RightHeel,
        ])
    );
}

#[test]
fn test_state_progression_bracket_consecutive() {
    let state = State::new(4);
    let state = state.append(&FootPlacement(vec![
        FootPart::LeftHeel,
        FootPart::Empty,
        FootPart::LeftToe,
        FootPart::Empty,
    ]));
    let state = state.append(&FootPlacement(vec![
        FootPart::LeftToe,
        FootPart::LeftHeel,
        FootPart::Empty,
        FootPart::Empty,
    ]));
    assert_eq!(
        state.final_columns,
        FootPlacement(vec![
            FootPart::LeftToe,
            FootPart::LeftHeel,
            FootPart::Empty,
            FootPart::Empty,
        ])
    );
}

#[test]
fn test_state_progression_toe_to_other_heel() {
    let state = State::new(4);
    let state = state.append(&FootPlacement(vec![
        FootPart::LeftHeel,
        FootPart::Empty,
        FootPart::Empty,
        FootPart::Empty,
    ]));
    let state = state.append(&FootPlacement(vec![
        FootPart::RightHeel,
        FootPart::RightToe,
        FootPart::Empty,
        FootPart::Empty,
    ]));
    assert_eq!(
        state.final_columns,
        FootPlacement(vec![
            FootPart::RightHeel,
            FootPart::RightToe,
            FootPart::Empty,
            FootPart::Empty,
        ])
    );
}

#[test]
fn test_state_progression_jack() {
    let state = State::new(4);
    let state = state.append(&FootPlacement(vec![
        FootPart::LeftHeel,
        FootPart::Empty,
        FootPart::Empty,
        FootPart::Empty,
    ]));
    let state = state.append(&FootPlacement(vec![
        FootPart::Empty,
        FootPart::Empty,
        FootPart::Empty,
        FootPart::RightHeel,
    ]));
    let state = state.append(&FootPlacement(vec![
        FootPart::Empty,
        FootPart::Empty,
        FootPart::Empty,
        FootPart::RightHeel,
    ]));
    assert_eq!(
        state.final_columns,
        FootPlacement(vec![
            FootPart::LeftHeel,
            FootPart::Empty,
            FootPart::Empty,
            FootPart::RightHeel,
        ])
    );
}

#[test]
fn test_bracket_to_tap_drops_the_toe() {
    // a bracket collapsing to a tap: the toe must not be inherited
    let state = State::new(4);
    let state = state.append(&FootPlacement::parse("L-l-").unwrap());
    let state = state.append(&FootPlacement::parse("-L--").unwrap());
    assert_eq!(state.final_columns, FootPlacement::parse("-L--").unwrap());
}

#[test]
fn test_activation_queries() {
    let state = State::new(4).append(&FootPlacement::parse("L--r").unwrap());
    assert!(state.foot_part_activated(FootPart::LeftHeel));
    assert!(!state.foot_part_activated(FootPart::LeftToe));
    assert!(state.side_activated(Side::Left));
    assert!(state.side_activated(Side::Right));
    let quiet = state.append(&FootPlacement::parse("----").unwrap());
    assert!(!quiet.side_activated(Side::Left));
}
