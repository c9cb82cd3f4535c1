use dancepredictor::extensions::Key;
use dancepredictor::graph::GraphState;
use dancepredictor::state::State;
use dancepredictor::{DanceStage, FootPart, FootPlacement, StepGraph};

#[test]
fn graph_test_graph_walk() {
    let dance_stage = DanceStage::ddr_solo();
    let mut graph = StepGraph::new(dance_stage);
    graph.append(
        0,
        &vec![Key::normal(), Key::empty(), Key::empty(), Key::empty()],
    );
    graph.append(
        1000000,
        &vec![Key::empty(), Key::normal(), Key::empty(), Key::empty()],
    );
    graph.append(
        2000000,
        &vec![Key::empty(), Key::empty(), Key::normal(), Key::empty()],
    );
    graph.append(
        3000000,
        &vec![Key::empty(), Key::empty(), Key::empty(), Key::normal()],
    );
    assert_eq!(
        graph.compute_path(),
        vec![
            FootPlacement::from_ddr_solo(
                FootPart::LeftHeel,
                FootPart::Empty,
                FootPart::Empty,
                FootPart::Empty
            ),
            FootPlacement::from_ddr_solo(
                FootPart::LeftHeel,
                FootPart::RightHeel,
                FootPart::Empty,
                FootPart::Empty
            ),
            FootPlacement::from_ddr_solo(
                FootPart::Empty,
                FootPart::RightHeel,
                FootPart::LeftHeel,
                FootPart::Empty
            ),
            FootPlacement::from_ddr_solo(
                FootPart::Empty,
                FootPart::Empty,
                FootPart::LeftHeel,
                FootPart::RightHeel
            )
        ]
    );
}

#[test]
fn basic_test_graph_walk() {
    let dance_stage = DanceStage::ddr_solo();
    let mut graph = StepGraph::new(dance_stage);
    graph.append(
        0,
        &vec![Key::normal(), Key::empty(), Key::empty(), Key::empty()],
    );
    graph.append(
        1000000,
        &vec![Key::empty(), Key::normal(), Key::empty(), Key::empty()],
    );
    graph.append(
        2000000,
        &vec![Key::empty(), Key::empty(), Key::normal(), Key::empty()],
    );
    graph.append(
        3000000,
        &vec![Key::empty(), Key::empty(), Key::empty(), Key::normal()],
    );
    assert_eq!(
        graph.compute_path(),
        vec![
            FootPlacement::from_ddr_solo(
                FootPart::LeftHeel,
                FootPart::Empty,
                FootPart::Empty,
                FootPart::Empty
            ),
            FootPlacement::from_ddr_solo(
                FootPart::LeftHeel,
                FootPart::RightHeel,
                FootPart::Empty,
                FootPart::Empty
            ),
            FootPlacement::from_ddr_solo(
                FootPart::Empty,
                FootPart::RightHeel,
                FootPart::LeftHeel,
                FootPart::Empty
            ),
            FootPlacement::from_ddr_solo(
                FootPart::Empty,
                FootPart::Empty,
                FootPart::LeftHeel,
                FootPart::RightHeel
            )
        ]
    );
}

#[test]
fn walk_into_jump() {
    let dance_stage = DanceStage::ddr_solo();
    let mut graph = StepGraph::new(dance_stage);
    graph.append(
        0,
        &vec![Key::normal(), Key::empty(), Key::empty(), Key::empty()],
    );
    graph.append(
        1000000,
        &vec![Key::empty(), Key::normal(), Key::empty(), Key::empty()],
    );
    graph.append(
        2000000,
        &vec![Key::empty(), Key::empty(), Key::normal(), Key::empty()],
    );
    graph.append(
        3000000,
        &vec![Key::empty(), Key::empty(), Key::empty(), Key::normal()],
    );
    assert_eq!(
        graph.compute_path(),
        vec![
            FootPlacement::from_ddr_solo(
                FootPart::LeftHeel,
                FootPart::Empty,
                FootPart::Empty,
                FootPart::Empty
            ),
            FootPlacement::from_ddr_solo(
                FootPart::LeftHeel,
                FootPart::RightHeel,
                FootPart::Empty,
                FootPart::Empty
            ),
            FootPlacement::from_ddr_solo(
                FootPart::Empty,
                FootPart::RightHeel,
                FootPart::LeftHeel,
                FootPart::Empty
            ),
            FootPlacement::from_ddr_solo(
                FootPart::Empty,
                FootPart::Empty,
                FootPart::LeftHeel,
                FootPart::RightHeel
            )
        ]
    );
}

#[test]
fn test_graph() {
    let dance_stage = DanceStage::ddr_solo();
    let mut graph = StepGraph::new(dance_stage);
    graph.append(
        0,
        &vec![Key::normal(), Key::empty(), Key::empty(), Key::empty()],
    );
    graph.append(
        1000000,
        &vec![Key::empty(), Key::empty(), Key::empty(), Key::normal()],
    );
    graph.append(
        2000000,
        &vec![Key::empty(), Key::empty(), Key::normal(), Key::empty()],
    );
    graph.append(
        3000000,
        &vec![Key::normal(), Key::empty(), Key::empty(), Key::normal()],
    );
    let path = graph.compute_path();
    for placement in path {
        println!("{}", placement.text());
    }
}

#[test]
fn test_graph_brackets_instead_of_jumps() {
    let dance_stage = DanceStage::ddr_solo();
    let mut graph = StepGraph::new(dance_stage);
    graph.append(
        100000,
        &vec![Key::normal(), Key::empty(), Key::empty(), Key::empty()],
    );
    graph.append(
        200000,
        &vec![Key::empty(), Key::empty(), Key::normal(), Key::normal()],
    );
    graph.append(
        300000,
        &vec![Key::normal(), Key::empty(), Key::empty(), Key::empty()],
    );
    graph.append(
        400000,
        &vec![Key::empty(), Key::normal(), Key::empty(), Key::normal()],
    );
    assert_eq!(
        graph.compute_path(),
        vec![
            FootPlacement::parse("L---").unwrap(),
            FootPlacement::parse("L-rR").unwrap(),
            FootPlacement::parse("L-rR").unwrap(),
            FootPlacement::parse("LR-r").unwrap(),
        ]
    );
}

#[test]
fn test_graph_jumps_instead_of_brackets() {
    let dance_stage = DanceStage::ddr_solo();
    let mut graph = StepGraph::new(dance_stage);
    graph.append(
        1000000,
        &vec![Key::normal(), Key::empty(), Key::empty(), Key::empty()],
    );
    graph.append(
        2000000,
        &vec![Key::empty(), Key::empty(), Key::normal(), Key::normal()],
    );
    graph.append(
        3000000,
        &vec![Key::normal(), Key::empty(), Key::empty(), Key::empty()],
    );
    assert_eq!(
        graph.compute_path(),
        vec![
            FootPlacement::parse("L---").unwrap(),
            FootPlacement::parse("--LR").unwrap(),
            FootPlacement::parse("L--R").unwrap(),
        ]
    );
}

#[test]
fn test_graph_footswitch_instead_of_jack() {
    let dance_stage = DanceStage::ddr_solo();
    let mut graph = StepGraph::new(dance_stage);
    graph.append(
        100000,
        &vec![Key::normal(), Key::empty(), Key::empty(), Key::empty()],
    );
    graph.append(
        200000,
        &vec![Key::empty(), Key::normal(), Key::empty(), Key::empty()],
    );
    graph.append(
        300000,
        &vec![Key::empty(), Key::normal(), Key::empty(), Key::empty()],
    );
    assert_eq!(
        graph.compute_path(),
        vec![
            FootPlacement::parse("L---").unwrap(),
            FootPlacement::parse("LR--").unwrap(),
            FootPlacement::parse("LR--").unwrap(),
        ]
    );
}

#[test]
fn test_graph_jack_instead_of_footswitch() {
    let dance_stage = DanceStage::ddr_solo();
    let mut graph = StepGraph::new(dance_stage);
    graph.append(
        1000000,
        &vec![Key::normal(), Key::empty(), Key::empty(), Key::empty()],
    );
    graph.append(
        2000000,
        &vec![Key::empty(), Key::normal(), Key::empty(), Key::empty()],
    );
    graph.append(
        3000000,
        &vec![Key::empty(), Key::normal(), Key::empty(), Key::empty()],
    );
    assert_eq!(
        graph.compute_path(),
        vec![
            FootPlacement::parse("L---").unwrap(),
            FootPlacement::parse("LR--").unwrap(),
            FootPlacement::parse("LR--").unwrap(),
        ]
    );
}

#[test]
fn test_mine_avoidance() {
    // with a mine on column 2, the cheapest annotation keeps every foot off it
    let dance_stage = DanceStage::ddr_solo();
    let mut graph = StepGraph::new(dance_stage);
    graph.append(
        0,
        &vec![Key::normal(), Key::empty(), Key::mine(), Key::empty()],
    );
    let path = graph.compute_path();
    assert_eq!(path.len(), 1);
    assert_eq!(path[0].0[2], FootPart::Empty);
    assert_eq!(path[0], FootPlacement::parse("R---").unwrap());
}

#[test]
fn test_compute_path_leaves_graph_reusable() {
    let mut graph = StepGraph::new(DanceStage::ddr_solo());
    // only the synthetic start stands in the frontier: nothing to annotate
    assert_eq!(graph.compute_path(), Vec::<FootPlacement>::new());
    graph.append(
        0,
        &vec![Key::normal(), Key::empty(), Key::empty(), Key::empty()],
    );
    let first = graph.compute_path();
    // both single-heel options cost nothing; the tie goes to the node
    // created last
    assert_eq!(first, vec![FootPlacement::parse("R---").unwrap()]);
    // extraction leaves the graph as it was: a second call agrees
    assert_eq!(graph.compute_path(), first);
    // and streaming continues as if nothing had been extracted
    graph.append(
        1000000,
        &vec![Key::empty(), Key::normal(), Key::empty(), Key::empty()],
    );
    assert_eq!(
        graph.compute_path(),
        vec![
            FootPlacement::parse("L---").unwrap(),
            FootPlacement::parse("LR--").unwrap(),
        ]
    );
}

#[test]
fn test_graph_state_holds_time_and_state() {
    let gs = GraphState::new(5_000_000, State::new(4));
    assert_eq!(gs.time, 5_000_000);
    assert_eq!(gs.state, State::new(4));
}

#[test]
fn test_node_and_edge_counts() {
    let mut graph = StepGraph::new(DanceStage::ddr_solo());
    assert_eq!(graph.node_count(), 1);
    assert_eq!(graph.edge_count(), 0);
    graph.append(
        0,
        &vec![Key::normal(), Key::empty(), Key::empty(), Key::empty()],
    );
    // one start node plus the two single-tap successors, one edge each
    assert_eq!(graph.node_count(), 3);
    assert_eq!(graph.edge_count(), 2);
}
