use dancepredictor::stage::StagePosition;
use dancepredictor::DanceStage;

#[test]
fn test_valid_brackets() {
    let stage = DanceStage::ddr_solo();
    assert_eq!(stage.is_valid_bracket(0, 1), true);
    assert_eq!(stage.is_valid_bracket(0, 2), true);
    assert_eq!(stage.is_valid_bracket(3, 1), true);
    assert_eq!(stage.is_valid_bracket(3, 2), true);
}

#[test]
fn test_invalid_brackets() {
    let stage = DanceStage::ddr_solo();
    assert_ne!(stage.is_valid_bracket(0, 3), true);
    assert_ne!(stage.is_valid_bracket(1, 2), true);
}

#[test]
fn test_xy_difference() {
    // facing values are scaled by 10^4: 10000 stands for 1.0
    let stage = DanceStage::ddr_solo();
    assert_eq!(stage.x_difference(0, 0), 0);
    assert_eq!(stage.x_difference(0, 3), 10000);
    assert_eq!(stage.x_difference(3, 0), -10000);
    assert_eq!(stage.x_difference(1, 0), -2500);
    assert_eq!(stage.x_difference(1, 3), 2500);
}

#[test]
fn test_x_difference_antisymmetry_cases() {
    let stage = DanceStage::ddr_solo();
    for a in 0..4 {
        for b in 0..4 {
            assert_eq!(stage.x_difference(a, b), -stage.x_difference(b, a));
            assert_eq!(stage.y_difference(a, b), -stage.y_difference(b, a));
        }
    }
}

#[test]
fn test_distances_and_side_panels() {
    let stage = DanceStage::ddr_solo();
    // adjacent panels are sqrt(2) apart, opposite panels two units
    assert_eq!(stage.distance_between(0, 1), 1414213);
    assert_eq!(stage.distance_between(1, 2), 2000000);
    assert!(stage.is_side_panel(0));
    assert!(!stage.is_side_panel(1));
    assert!(!stage.is_side_panel(2));
    assert!(stage.is_side_panel(3));
}

#[test]
fn test_positions_and_axes() {
    let stage = DanceStage::ddr_solo();
    assert_eq!(stage.column_count(), 4);
    assert_eq!(stage.x(0), -1000000);
    assert_eq!(stage.y(0), 0);
    assert_eq!(stage.position(1), StagePosition::new(0, -1000000));
    assert_eq!(stage.position(2), StagePosition::new(0, 1000000));
}

#[test]
fn test_sin_cos() {
    // values are scaled by 10^6
    let stage = DanceStage::ddr_solo();
    assert_eq!(stage.cos(0, 3), 1000000);
    assert_eq!(stage.sin(0, 3), 0);
    assert_eq!(stage.cos(0, 1), 707107);
    assert_eq!(stage.sin(0, 1), -707107);
}

#[test]
fn test_average_position() {
    let stage = DanceStage::ddr_solo();
    assert_eq!(stage.average_position(0, 3), StagePosition::new(0, 0));
    assert_eq!(
        stage.average_position(0, 1),
        StagePosition::new(-500000, -500000)
    );
}
