use dancepredictor::cost::{
    doublestep_cost, facing_cost, footswitch_cost, jack_cost, mine_cost, movement_cost,
    slow_bracket_cost, total_cost, twisted_foot_cost, COST_CAP,
};
use dancepredictor::extensions::Key;
use dancepredictor::state::State;
use dancepredictor::{DanceStage, FootPlacement};

fn place(s: &str) -> FootPlacement {
    FootPlacement::parse(s).unwrap()
}

#[test]
fn test_movement_cost_velocity() {
    // moving the left heel one diagonal (sqrt(2) units) in one second:
    // 6 * 1.414213 = 8.485278 cost units, in millionths
    let stage = DanceStage::ddr_solo();
    let prev = State::new(4).append(&place("L---"));
    let next = prev.append(&place("-L--"));
    assert_eq!(movement_cost(&stage, &prev, &next, Some(1000000)), 8485278);
    // ten times as fast, ten times the cost
    assert_eq!(movement_cost(&stage, &prev, &next, Some(100000)), 84852780);
    // across the unbounded first gap movement is free
    assert_eq!(movement_cost(&stage, &prev, &next, None), 0);
}

#[test]
fn test_facing_cost_crossed_feet() {
    // right heel left of the left heel: both heel and toe pairs face
    // -0.25, each penalised by 0.25^1.8 (0.082469), weighted by 200
    let stage = DanceStage::ddr_solo();
    let crossed = State::new(4).append(&place("RL--"));
    assert_eq!(facing_cost(&stage, &crossed), 32987600);
    // the mirrored stance faces forward and costs nothing
    let forward = State::new(4).append(&place("LR--"));
    assert_eq!(facing_cost(&stage, &forward), 0);
}

#[test]
fn test_doublestep_cost_cubed_travel() {
    // the same foot stepping two different panels: 850 * sqrt(2)^3
    let stage = DanceStage::ddr_solo();
    let prev = State::new(4).append(&place("L---"));
    let next = prev.append(&place("-L--"));
    assert_eq!(doublestep_cost(&stage, &prev, &next), 2404160187);
    // a jump on either row switches the term off
    let jump = prev.append(&place("-LR-"));
    assert_eq!(doublestep_cost(&stage, &prev, &jump), 0);
}

#[test]
fn test_mine_cost_counts_resting_feet() {
    let stage = DanceStage::ddr_solo();
    let row = vec![Key::mine(), Key::mine(), Key::empty(), Key::empty()];
    let next = State::new(4).append(&place("LR--"));
    assert_eq!(mine_cost(&stage, &row, &next), 20000000000);
    let clear = State::new(4).append(&place("--LR"));
    assert_eq!(mine_cost(&stage, &row, &clear), 0);
}

#[test]
fn test_twisted_foot_cost() {
    // right toe on the down panel, right heel on the up panel: twisted
    let stage = DanceStage::ddr_solo();
    let twisted = State::new(4).append(&place("-rR-"));
    assert_eq!(twisted_foot_cost(&stage, &twisted), 100000000);
    let straight = State::new(4).append(&place("-Rr-"));
    assert_eq!(twisted_foot_cost(&stage, &straight), 0);
}

#[test]
fn test_slow_bracket_cost() {
    let bracket = State::new(4).append(&place("Ll--"));
    // below the 0.15 s threshold the hold is free
    assert_eq!(slow_bracket_cost(&bracket, Some(100000)), 0);
    // one second: (1.0 - 0.15) * 300 cost units, in millionths
    assert_eq!(slow_bracket_cost(&bracket, Some(1000000)), 255000000);
    // the unbounded first gap is fully penalised
    assert_eq!(slow_bracket_cost(&bracket, None), COST_CAP);
    let tap = State::new(4).append(&place("L---"));
    assert_eq!(slow_bracket_cost(&tap, Some(1000000)), 0);
}

#[test]
fn test_jack_cost_reciprocal() {
    // a plain single-panel jack: the left heel repeats column 0
    let prev = State::new(4).append(&place("L---"));
    let next = prev.append(&place("L---"));
    // half the threshold: 30 * (1/0.05 - 1/0.1) = 300 cost units
    assert_eq!(jack_cost(&prev, &next, Some(50000)), 300000000);
    // at the threshold and beyond the term vanishes
    assert_eq!(jack_cost(&prev, &next, Some(100000)), 0);
    assert_eq!(jack_cost(&prev, &next, Some(1000000)), 0);
    // a repeated bracket jacks the same way
    let prev = State::new(4).append(&place("Ll--"));
    let next = prev.append(&place("Ll--"));
    assert_eq!(jack_cost(&prev, &next, Some(50000)), 300000000);
    // stepping onto fresh panels is no jack
    let prev = State::new(4).append(&place("L---"));
    let moved = prev.append(&place("-L--"));
    assert_eq!(jack_cost(&prev, &moved, Some(50000)), 0);
}

#[test]
fn test_footswitch_cost() {
    let stage = DanceStage::ddr_solo();
    // column 1 changes feet at 0.4 s: 325 * (0.4 - 0.2) / 0.4
    let prev = State::new(4).append(&place("-R--"));
    let next = prev.append(&place("-L--"));
    assert_eq!(footswitch_cost(&stage, &prev, &next, Some(400000)), 162500000);
    // below the threshold it is free
    assert_eq!(footswitch_cost(&stage, &prev, &next, Some(100000)), 0);
    // switching on a side panel adds the sideswitch weight
    let prev = State::new(4).append(&place("R---"));
    let next = prev.append(&place("L---"));
    assert_eq!(footswitch_cost(&stage, &prev, &next, Some(400000)), 292500000);
}

#[test]
fn test_total_cost_sums_terms() {
    // a doublestep on a fast beat: movement plus the doublestep penalty
    let stage = DanceStage::ddr_solo();
    let row = vec![Key::empty(), Key::normal(), Key::empty(), Key::empty()];
    let prev = State::new(4).append(&place("L---"));
    let next = prev.append(&place("-L--"));
    assert_eq!(
        total_cost(&stage, &row, &prev, &next, Some(100000)),
        84852780 + 2404160187
    );
}
