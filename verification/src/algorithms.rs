use vstd::prelude::*;

use crate::utils::{
    is_king_move_in_grid, lemma_neighbors_are_king_moves, missing_beam_width_message,
    missing_lookahead_message, neighbors, spec_neighbors, AlgoSpecificParams, PathPlanningParams,
    Position,
};

verus! {

/// A planning algorithm with its own parameters.
#[derive(Debug, Clone, Copy, PartialEq, Eq, Structural)]
pub enum PathPlanningAlgorithm {
    GreedyLookahead { lookahead: usize },
    LimitedBeamSearch { lookahead: usize, beam_width: usize },
}

/// The message given when a configuration has no algorithm parameters.
pub open spec fn missing_params_message() -> Seq<char> {
    "algo_specific_params is required"@
}

/// The message given for an algorithm name that is not known.
pub open spec fn unknown_algorithm_message(name: Seq<char>) -> Seq<char> {
    "Unknown algorithm: "@ + name
}

/// The algorithm a configuration selects, or the message that refuses it.
pub open spec fn spec_from_config(
    algorithm: Seq<char>,
    params: Option<AlgoSpecificParams>,
) -> Result<PathPlanningAlgorithm, Seq<char>> {
    match params {
        None => Err(missing_params_message()),
        Some(p) => if algorithm == "greedy_lookahead"@ {
            match p.lookahead {
                Some(l) => Ok(PathPlanningAlgorithm::GreedyLookahead { lookahead: l }),
                None => Err(missing_lookahead_message()),
            }
        } else if algorithm == "limited_beam_search"@ {
            match (p.lookahead, p.beam_width) {
                (Some(l), Some(w)) => Ok(PathPlanningAlgorithm::LimitedBeamSearch { lookahead: l, beam_width: w }),
                (None, _) => Err(missing_lookahead_message()),
                (Some(_), None) => Err(missing_beam_width_message()),
            }
        } else {
            Err(unknown_algorithm_message(algorithm))
        },
    }
}


/// The algorithm chosen is the one the configuration names, with exactly the
/// parameters it gives: "greedy_lookahead" with a lookahead gives the greedy
/// planner with that lookahead, whatever else is set; "limited_beam_search"
/// with a lookahead and a beam width gives the beam search with both, as
/// given. Any accepted configuration names its algorithm and carries its
/// parameters.
pub proof fn lemma_from_config_takes_named_algorithm(
    algorithm: Seq<char>,
    params: Option<AlgoSpecificParams>,
)
    ensures
        algorithm == "greedy_lookahead"@ && params is Some && params->0.lookahead is Some
            ==> spec_from_config(algorithm, params) == Ok::<PathPlanningAlgorithm, Seq<char>>(
            PathPlanningAlgorithm::GreedyLookahead { lookahead: params->0.lookahead->0 },
        ),
        algorithm == "limited_beam_search"@ && params is Some && params->0.lookahead is Some
            && params->0.beam_width is Some ==> spec_from_config(algorithm, params) == Ok::<
            PathPlanningAlgorithm,
            Seq<char>,
        >(
            PathPlanningAlgorithm::LimitedBeamSearch {
                lookahead: params->0.lookahead->0,
                beam_width: params->0.beam_width->0,
            },
        ),
        spec_from_config(algorithm, params) matches Ok(PathPlanningAlgorithm::GreedyLookahead {
            lookahead,
        }) ==> algorithm == "greedy_lookahead"@ && params is Some && params->0.lookahead == Some(
            lookahead,
        ),
        spec_from_config(algorithm, params) matches Ok(
            PathPlanningAlgorithm::LimitedBeamSearch { lookahead, beam_width },
        ) ==> algorithm == "limited_beam_search"@ && params is Some && params->0.lookahead == Some(
            lookahead,
        ) && params->0.beam_width == Some(beam_width),
{
    reveal_strlit("greedy_lookahead");
    reveal_strlit("limited_beam_search");
    assert("greedy_lookahead"@[0] != "limited_beam_search"@[0]);
}

/// A result whose message is taken by its characters.
pub open spec fn result_view<T>(r: Result<T, String>) -> Result<T, Seq<char>> {
    match r {
        Ok(v) => Ok(v),
        Err(e) => Err(e@),
    }
}

impl PathPlanningAlgorithm {
    /// The algorithm that the planning parameters name, with its parameters.
    pub fn from_config(params: &PathPlanningParams) -> (r: Result<PathPlanningAlgorithm, String>)
        ensures
            result_view(r) == spec_from_config(params.algorithm@, params.algo_specific_params),
    {
        let algo_params = match params.algo_specific_params {
            Some(p) => p,
            None => return Err(String::from_str("algo_specific_params is required")),
        };
        let greedy = String::from_str("greedy_lookahead");
        let beam = String::from_str("limited_beam_search");
        if params.algorithm == greedy {
            let lookahead = algo_params.require_lookahead()?;
            Ok(PathPlanningAlgorithm::GreedyLookahead { lookahead })
        } else if params.algorithm == beam {
            let lookahead = algo_params.require_lookahead()?;
            let beam_width = algo_params.require_beam_width()?;
            Ok(PathPlanningAlgorithm::LimitedBeamSearch { lookahead, beam_width })
        } else {
            let mut msg = String::from_str("Unknown algorithm: ");
            msg.append(params.algorithm.as_str());
            Err(msg)
        }
    }
}


/// Whether `path` is a walk of a king inside a `size` by `size` grid: it is not
/// empty, and each cell after the first is one king's move from the one before.
pub open spec fn is_walk(path: Seq<Position>, size: usize) -> bool {
    &&& path.len() >= 1
    &&& forall|i: int|
        0 <= i < path.len() - 1 ==> #[trigger] is_king_move_in_grid(
            path[i].x,
            path[i].y,
            size,
            path[i + 1],
        )
}


/// Each move of a walk goes to one of the cells that `neighbors` offers from
/// the cell before it.
pub proof fn lemma_walk_moves_are_neighbors(path: Seq<Position>, size: usize)
    requires
        is_walk(path, size),
    ensures
        forall|i: int|
            0 <= i < path.len() - 1 ==> #[trigger] spec_neighbors(path[i].x, path[i].y, size).contains(
                path[i + 1],
            ),
{
    assert forall|i: int| 0 <= i < path.len() - 1 implies #[trigger] spec_neighbors(
        path[i].x,
        path[i].y,
        size,
    ).contains(path[i + 1]) by {
        lemma_neighbors_are_king_moves(path[i].x, path[i].y, size);
        assert(is_king_move_in_grid(path[i].x, path[i].y, size, path[i + 1]));
    }
}

/// Whether `p` is one king's move away from `(x, y)` inside the grid.
pub fn is_king_move(x: usize, y: usize, size: usize, p: Position) -> (r: bool)
    ensures
        r == is_king_move_in_grid(x, y, size, p),
{
    let close_x = p.x == x || (p.x < x && x - p.x == 1) || (x < p.x && p.x - x == 1);
    let close_y = p.y == y || (p.y < y && y - p.y == 1) || (y < p.y && p.y - y == 1);
    p.x < size && p.y < size && close_x && close_y && !(p.x == x && p.y == y)
}

/// The walk a planner makes over a grid: where it started, every cell it has
/// moved to, and how many moves it may still make.
#[derive(Debug)]
pub struct PathWalk {
    path: Vec<Position>,
    size: usize,
    budget: u32,
}

impl View for PathWalk {
    type V = Seq<Position>;

    closed spec fn view(&self) -> Seq<Position> {
        self.path@
    }
}

impl PathWalk {
    /// The walk is a king's walk inside its grid that has made no more moves
    /// than its budget allows.
    pub closed spec fn wf(&self) -> bool {
        &&& is_walk(self.path@, self.size)
        &&& self.path@.len() <= self.budget + 1
    }

    /// The number of rows and columns of the grid walked on.
    pub closed spec fn grid_size(&self) -> usize {
        self.size
    }

    /// The number of moves the walk may make in all.
    pub closed spec fn step_budget(&self) -> nat {
        self.budget as nat
    }

    /// A walk that stands on `start` and may make `steps` moves in a `size` by
    /// `size` grid.
    pub fn new(start: Position, size: usize, steps: u32) -> (w: Self)
        ensures
            w.wf(),
            w@ == seq![start],
            w.grid_size() == size,
            w.step_budget() == steps,
    {
        let mut path: Vec<Position> = Vec::new();
        path.push(start);
        PathWalk { path, size, budget: steps }
    }

    /// The cell the walk stands on.
    pub fn current(&self) -> (p: Position)
        requires
            self.wf(),
        ensures
            self@.len() >= 1,
            p == self@.last(),
    {
        self.path[self.path.len() - 1]
    }

    /// Whether the walk may make another move.
    pub fn has_steps_left(&self) -> (b: bool)
        requires
            self.wf(),
        ensures
            b == (self@.len() <= self.step_budget()),
    {
        self.path.len() - 1 < self.budget as usize
    }

    /// The cells the walk may move to next, in the order in which the planners
    /// try them.
    pub fn candidate_moves(&self) -> (v: Vec<Position>)
        requires
            self.wf(),
        ensures
            self@.len() >= 1,
            v@ == spec_neighbors(self@.last().x, self@.last().y, self.grid_size()),
    {
        let p = self.current();
        neighbors(p.x, p.y, self.size)
    }

    /// Moves to `next` when a move is left and `next` is one king's move from
    /// the current cell inside the grid; otherwise the walk stays as it is.
    pub fn advance(&mut self, next: Position) -> (moved: bool)
        requires
            old(self).wf(),
        ensures
            final(self).wf(),
            old(self)@.len() >= 1,
            moved == (old(self)@.len() <= old(self).step_budget() && is_king_move_in_grid(
                old(self)@.last().x,
                old(self)@.last().y,
                old(self).grid_size(),
                next,
            )),
            final(self)@ == (if moved { old(self)@.push(next) } else { old(self)@ }),
            final(self)@[0] == old(self)@[0],
            final(self).grid_size() == old(self).grid_size(),
            final(self).step_budget() == old(self).step_budget(),
    {
        let cur = self.path[self.path.len() - 1];
        if self.path.len() - 1 < self.budget as usize && is_king_move(cur.x, cur.y, self.size, next) {
            self.path.push(next);
            true
        } else {
            false
        }
    }

    /// The cells of the walk, from the start to the current cell.
    pub fn into_path(self) -> (path: Vec<Position>)
        requires
            self.wf(),
        ensures
            path@ == self@,
            is_walk(path@, self.grid_size()),
            path@.len() <= self.step_budget() + 1,
    {
        self.path
    }
}

} // verus!
