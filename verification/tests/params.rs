use drone_path_planner::algorithms::PathPlanningAlgorithm;
use drone_path_planner::utils::{
    in_bounds, starting_position_in_bounds, AlgoSpecificParams, PathPlanningParams, Position,
};

fn params(algorithm: &str, algo: Option<AlgoSpecificParams>) -> PathPlanningParams {
    PathPlanningParams {
        maximum_duration_millis: 10000,
        discrete_steps_count: 5,
        starting_position: Position { x: 0, y: 0 },
        algorithm: algorithm.to_string(),
        algo_specific_params: algo,
    }
}

fn both(lookahead: Option<usize>, beam_width: Option<usize>) -> Option<AlgoSpecificParams> {
    Some(AlgoSpecificParams { lookahead, beam_width })
}

#[test]
fn require_lookahead_present_and_missing() {
    let p = AlgoSpecificParams { lookahead: Some(3), beam_width: None };
    assert_eq!(p.require_lookahead(), Ok(3));
    assert_eq!(
        p.require_beam_width(),
        Err("Parameter beam_width must be provided".to_string())
    );
    let q = AlgoSpecificParams { lookahead: None, beam_width: Some(7) };
    assert_eq!(
        q.require_lookahead(),
        Err("Parameter lookahead must be provided".to_string())
    );
    assert_eq!(q.require_beam_width(), Ok(7));
}

#[test]
fn from_config_greedy() {
    let r = PathPlanningAlgorithm::from_config(&params("greedy_lookahead", both(Some(2), None)));
    assert_eq!(r, Ok(PathPlanningAlgorithm::GreedyLookahead { lookahead: 2 }));
}

#[test]
fn from_config_beam() {
    let r = PathPlanningAlgorithm::from_config(&params("limited_beam_search", both(Some(3), Some(4))));
    assert_eq!(
        r,
        Ok(PathPlanningAlgorithm::LimitedBeamSearch { lookahead: 3, beam_width: 4 })
    );
}

#[test]
fn from_config_missing_params() {
    let r = PathPlanningAlgorithm::from_config(&params("greedy_lookahead", None));
    assert_eq!(r, Err("algo_specific_params is required".to_string()));
    // The parameters are asked for before the name is looked at.
    let r = PathPlanningAlgorithm::from_config(&params("dijkstra", None));
    assert_eq!(r, Err("algo_specific_params is required".to_string()));
}

#[test]
fn from_config_missing_lookahead_or_width() {
    let r = PathPlanningAlgorithm::from_config(&params("greedy_lookahead", both(None, Some(2))));
    assert_eq!(r, Err("Parameter lookahead must be provided".to_string()));
    let r = PathPlanningAlgorithm::from_config(&params("limited_beam_search", both(None, None)));
    assert_eq!(r, Err("Parameter lookahead must be provided".to_string()));
    let r = PathPlanningAlgorithm::from_config(&params("limited_beam_search", both(Some(2), None)));
    assert_eq!(r, Err("Parameter beam_width must be provided".to_string()));
}

#[test]
fn from_config_unknown_algorithm() {
    let r = PathPlanningAlgorithm::from_config(&params("dijkstra", both(Some(1), Some(1))));
    assert_eq!(r, Err("Unknown algorithm: dijkstra".to_string()));
    let r = PathPlanningAlgorithm::from_config(&params("Greedy_Lookahead", both(Some(1), None)));
    assert_eq!(r, Err("Unknown algorithm: Greedy_Lookahead".to_string()));
}

#[test]
fn in_bounds_edges() {
    assert!(in_bounds(0, 0, 3));
    assert!(in_bounds(2, 2, 3));
    assert!(!in_bounds(3, 0, 3));
    assert!(!in_bounds(0, -1, 3));
    assert!(!in_bounds(-1, 1, 3));
    assert!(!in_bounds(0, 0, 0));
}

#[test]
fn starting_position_checks() {
    assert!(starting_position_in_bounds(Position { x: 2, y: 0 }, 3));
    assert!(!starting_position_in_bounds(Position { x: 3, y: 0 }, 3));
    assert!(!starting_position_in_bounds(Position { x: 0, y: 3 }, 3));
    assert!(!starting_position_in_bounds(Position { x: 0, y: 0 }, 0));
}
