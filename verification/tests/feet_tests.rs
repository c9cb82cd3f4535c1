use dancepredictor::extensions::Key;
use dancepredictor::feet::foot_placement_permutations;
use dancepredictor::feet::Side;
use dancepredictor::{DanceStage, FootPart, FootPlacement};

#[test]
fn test_tap_permutations() {
    let permutations = foot_placement_permutations(
        &DanceStage::ddr_solo(),
        &vec![Key::normal(), Key::empty(), Key::empty(), Key::empty()],
    );

    assert_eq!(
        permutations,
        vec![
            FootPlacement(vec![
                FootPart::LeftHeel,
                FootPart::Empty,
                FootPart::Empty,
                FootPart::Empty,
            ]),
            FootPlacement(vec![
                FootPart::RightHeel,
                FootPart::Empty,
                FootPart::Empty,
                FootPart::Empty,
            ])
        ]
    );
}

#[test]
fn test_jump_permutations() {
    let permutations = foot_placement_permutations(
        &DanceStage::ddr_solo(),
        &vec![Key::normal(), Key::empty(), Key::empty(), Key::normal()],
    );

    assert_eq!(
        permutations,
        vec![
            FootPlacement(vec![
                FootPart::LeftHeel,
                FootPart::Empty,
                FootPart::Empty,
                FootPart::RightHeel,
            ]),
            FootPlacement(vec![
                FootPart::RightHeel,
                FootPart::Empty,
                FootPart::Empty,
                FootPart::LeftHeel,
            ])
        ]
    );
}

#[test]
fn test_bracket_permutations() {
    let permutations = foot_placement_permutations(
        &DanceStage::ddr_solo(),
        &vec![Key::normal(), Key::normal(), Key::empty(), Key::empty()],
    );

    assert_eq!(
        permutations,
        vec![
            FootPlacement(vec![
                FootPart::LeftHeel,
                FootPart::LeftToe,
                FootPart::Empty,
                FootPart::Empty
            ]),
            FootPlacement(vec![
                FootPart::LeftHeel,
                FootPart::RightHeel,
                FootPart::Empty,
                FootPart::Empty
            ]),
            FootPlacement(vec![
                FootPart::LeftToe,
                FootPart::LeftHeel,
                FootPart::Empty,
                FootPart::Empty
            ]),
            FootPlacement(vec![
                FootPart::RightHeel,
                FootPart::LeftHeel,
                FootPart::Empty,
                FootPart::Empty
            ]),
            FootPlacement(vec![
                FootPart::RightHeel,
                FootPart::RightToe,
                FootPart::Empty,
                FootPart::Empty
            ]),
            FootPlacement(vec![
                FootPart::RightToe,
                FootPart::RightHeel,
                FootPart::Empty,
                FootPart::Empty
            ])
        ]
    );
}

#[test]
fn test_parse_round_trip() {
    let p = FootPlacement::parse("L-rR").unwrap();
    assert_eq!(
        p,
        FootPlacement(vec![
            FootPart::LeftHeel,
            FootPart::Empty,
            FootPart::RightToe,
            FootPart::RightHeel,
        ])
    );
    assert_eq!(p.text(), "L-rR".to_string());
}

#[test]
fn test_parse_rejects_unknown_characters() {
    assert_eq!(FootPlacement::parse("L-x-"), None);
}

#[test]
fn test_foot_part_relations() {
    assert_eq!(FootPart::LeftToe.other_part(), FootPart::LeftHeel);
    assert_eq!(FootPart::RightHeel.other_part(), FootPart::RightToe);
    assert_eq!(FootPart::Empty.other_part(), FootPart::Empty);
    assert_eq!(FootPart::LeftToe.side(), Some(Side::Left));
    assert_eq!(FootPart::Empty.side(), None);
    assert_eq!(FootPart::heel(Side::Right), FootPart::RightHeel);
    assert_eq!(FootPart::toe(Side::Left), FootPart::LeftToe);
    assert!(FootPart::LeftToe.is_toe());
    assert!(!FootPart::LeftToe.is_heel());
}
