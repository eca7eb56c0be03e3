use vstd::prelude::*;

verus! {

/// A cell of the grid: `x` is the row, `y` the column.
#[derive(Debug, Clone, Copy, PartialEq, Eq, Structural)]
pub struct Position {
    pub x: usize,
    pub y: usize,
}

/// Parameters that only some planning algorithms use.
#[derive(Debug, Clone, Copy)]
pub struct AlgoSpecificParams {
    pub lookahead: Option<usize>,
    pub beam_width: Option<usize>,
}

/// The message given when the lookahead depth is missing.
pub open spec fn missing_lookahead_message() -> Seq<char> {
    "Parameter lookahead must be provided"@
}

/// The message given when the beam width is missing.
pub open spec fn missing_beam_width_message() -> Seq<char> {
    "Parameter beam_width must be provided"@
}

impl AlgoSpecificParams {
    /// The lookahead depth, or an error naming the missing parameter.
    pub fn require_lookahead(&self) -> (r: Result<usize, String>)
        ensures
            match self.lookahead {
                Some(v) => r == Ok::<usize, String>(v),
                None => r is Err && r->Err_0@ == missing_lookahead_message(),
            },
    {
        match self.lookahead {
            Some(v) => Ok(v),
            None => Err(String::from_str("Parameter lookahead must be provided")),
        }
    }

    /// The beam width, or an error naming the missing parameter.
    pub fn require_beam_width(&self) -> (r: Result<usize, String>)
        ensures
            match self.beam_width {
                Some(v) => r == Ok::<usize, String>(v),
                None => r is Err && r->Err_0@ == missing_beam_width_message(),
            },
    {
        match self.beam_width {
            Some(v) => Ok(v),
            None => Err(String::from_str("Parameter beam_width must be provided")),
        }
    }
}

/// What a planning run is asked to do.
pub struct PathPlanningParams {
    pub maximum_duration_millis: u64,
    pub discrete_steps_count: u32,
    pub starting_position: Position,
    pub algorithm: String,
    pub algo_specific_params: Option<AlgoSpecificParams>,
}

/// Whether the point `(nx, ny)` lies inside a `bound` by `bound` grid.
pub fn in_bounds(nx: isize, ny: isize, bound: isize) -> (r: bool)
    ensures
        r == (0 <= nx < bound && 0 <= ny < bound),
{
    nx >= 0 && ny >= 0 && nx < bound && ny < bound
}

/// Whether a starting position lies inside a grid of `grid_size` rows and
/// columns; a run is refused when it does not.
pub fn starting_position_in_bounds(start: Position, grid_size: usize) -> (r: bool)
    ensures
        r == (start.x < grid_size && start.y < grid_size),
{
    start.x < grid_size && start.y < grid_size
}

/// The eight moves of a king, as row and column offsets, in the order in which
/// every planner tries them.
pub open spec fn spec_directions() -> Seq<(isize, isize)> {
    seq![
        (-1isize, -1isize),
        (-1isize, 0isize),
        (-1isize, 1isize),
        (0isize, -1isize),
        (0isize, 1isize),
        (1isize, -1isize),
        (1isize, 0isize),
        (1isize, 1isize),
    ]
}

/// The moves of a king: every pair of offsets in -1..=1 but (0, 0), the row
/// offset varying slowest.
pub fn directions() -> (d: Vec<(isize, isize)>)
    ensures
        d@ == spec_directions(),
{
    let mut d: Vec<(isize, isize)> = Vec::new();
    let mut dx: isize = -1;
    while dx <= 1
        invariant
            -1 <= dx <= 2,
            d@ == spec_directions().take(if dx == -1 { 0int } else if dx == 0 { 3 } else if dx == 1 { 5 } else { 8 }),
        decreases 2 - dx,
    {
        let mut dy: isize = -1;
        let ghost base: int = if dx == -1 { 0int } else if dx == 0 { 3 } else { 5 };
        while dy <= 1
            invariant
                -1 <= dx <= 1,
                -1 <= dy <= 2,
                base == (if dx == -1 { 0int } else if dx == 0 { 3 } else { 5 }),
                d@ == spec_directions().take(base + (if dy == -1 { 0int } else if dy == 0 { 1 } else if dy == 1 { if dx == 0 { 1int } else { 2 } } else { if dx == 0 { 2int } else { 3 } })),
            decreases 2 - dy,
        {
            if !(dx == 0 && dy == 0) {
                d.push((dx, dy));
            }
            dy = dy + 1;
        }
        dx = dx + 1;
    }
    d
}

/// The cell reached from `(x, y)` by the move `d`, if it lies in a `size` by
/// `size` grid.
pub open spec fn step_target(x: usize, y: usize, size: usize, d: (isize, isize)) -> Option<Position> {
    let nx = x + d.0;
    let ny = y + d.1;
    if 0 <= nx < size && 0 <= ny < size {
        Some(Position { x: nx as usize, y: ny as usize })
    } else {
        None
    }
}

/// The cells reached from `(x, y)` by the moves `ds` in turn, those outside the
/// grid left out.
pub open spec fn neighbors_along(ds: Seq<(isize, isize)>, x: usize, y: usize, size: usize) -> Seq<Position>
    decreases ds.len(),
{
    if ds.len() == 0 {
        seq![]
    } else {
        let prev = neighbors_along(ds.drop_last(), x, y, size);
        match step_target(x, y, size, ds.last()) {
            Some(p) => prev.push(p),
            None => prev,
        }
    }
}

/// The cells a king on `(x, y)` can move to in a `size` by `size` grid, in the
/// order of `spec_directions`.
pub open spec fn spec_neighbors(x: usize, y: usize, size: usize) -> Seq<Position> {
    neighbors_along(spec_directions(), x, y, size)
}


/// Whether `p` is one king's move away from `(x, y)` and lies in a `size` by
/// `size` grid.
pub open spec fn is_king_move_in_grid(x: usize, y: usize, size: usize, p: Position) -> bool {
    &&& p.x < size
    &&& p.y < size
    &&& -1 <= p.x - x <= 1
    &&& -1 <= p.y - y <= 1
    &&& !(p.x == x && p.y == y)
}

proof fn lemma_neighbors_along_members(ds: Seq<(isize, isize)>, x: usize, y: usize, size: usize)
    ensures
        forall|p: Position|
            #[trigger] neighbors_along(ds, x, y, size).contains(p) <==> exists|i: int|
                0 <= i < ds.len() && step_target(x, y, size, #[trigger] ds[i]) == Some(p),
    decreases ds.len(),
{
    if ds.len() > 0 {
        let prev = ds.drop_last();
        lemma_neighbors_along_members(prev, x, y, size);
        assert forall|p: Position|
            #[trigger] neighbors_along(ds, x, y, size).contains(p) <==> exists|i: int|
                0 <= i < ds.len() && step_target(x, y, size, #[trigger] ds[i]) == Some(p) by {
            let pl = neighbors_along(prev, x, y, size);
            let l = neighbors_along(ds, x, y, size);
            if l.contains(p) {
                let k = choose|k: int| 0 <= k < l.len() && l[k] == p;
                if k < pl.len() {
                    assert(l[k] == pl[k]);
                }
                if pl.contains(p) {
                    let i = choose|i: int| 0 <= i < prev.len() && step_target(x, y, size, #[trigger] prev[i]) == Some(p);
                    assert(ds[i] == prev[i]);
                } else {
                    assert(step_target(x, y, size, ds[ds.len() - 1]) == Some(p));
                }
            }
            if exists|i: int| 0 <= i < ds.len() && step_target(x, y, size, #[trigger] ds[i]) == Some(p) {
                let i = choose|i: int| 0 <= i < ds.len() && step_target(x, y, size, #[trigger] ds[i]) == Some(p);
                if i < ds.len() - 1 {
                    assert(prev[i] == ds[i]);
                    assert(pl.contains(p));
                    let k = choose|k: int| 0 <= k < pl.len() && pl[k] == p;
                    assert(l[k] == p);
                } else {
                    assert(l[l.len() - 1] == p);
                }
            }
        }
    }
}

proof fn lemma_neighbors_along_no_duplicates(ds: Seq<(isize, isize)>, x: usize, y: usize, size: usize)
    requires
        ds.no_duplicates(),
    ensures
        neighbors_along(ds, x, y, size).no_duplicates(),
    decreases ds.len(),
{
    if ds.len() > 0 {
        let prev = ds.drop_last();
        assert(prev.no_duplicates());
        lemma_neighbors_along_no_duplicates(prev, x, y, size);
        lemma_neighbors_along_members(prev, x, y, size);
        let last = ds.last();
        match step_target(x, y, size, last) {
            Some(p) => {
                if neighbors_along(prev, x, y, size).contains(p) {
                    let i = choose|i: int| 0 <= i < prev.len() && step_target(x, y, size, #[trigger] prev[i]) == Some(p);
                    assert(prev[i] == ds[i]);
                    assert(ds[i] == last);
                    assert(false);
                }
            },
            None => {},
        }
    }
}

/// The cells `neighbors` gives are exactly those one king's move away inside
/// the grid, each once.
pub proof fn lemma_neighbors_are_king_moves(x: usize, y: usize, size: usize)
    ensures
        forall|p: Position|
            #[trigger] spec_neighbors(x, y, size).contains(p) <==> is_king_move_in_grid(x, y, size, p),
        spec_neighbors(x, y, size).no_duplicates(),
        spec_neighbors(x, y, size).len() <= 8,
{
    let ds = spec_directions();
    lemma_neighbors_along_members(ds, x, y, size);
    assert forall|p: Position|
        #[trigger] spec_neighbors(x, y, size).contains(p) <==> is_king_move_in_grid(x, y, size, p) by {
        if is_king_move_in_grid(x, y, size, p) {
            let dx = p.x - x;
            let dy = p.y - y;
            let i: int = if dx == -1 {
                if dy == -1 { 0 } else if dy == 0 { 1 } else { 2 }
            } else if dx == 0 {
                if dy == -1 { 3 } else { 4 }
            } else {
                if dy == -1 { 5 } else if dy == 0 { 6 } else { 7 }
            };
            assert(step_target(x, y, size, ds[i]) == Some(p));
        }
    }
    assert(ds.no_duplicates());
    lemma_neighbors_along_no_duplicates(ds, x, y, size);
    lemma_neighbors_along_len(ds, x, y, size);
}


/// From a cell of the grid, `neighbors` offers exactly the cells of the grid
/// whose row and column each differ by at most one from it, other than the
/// cell itself; in particular all eight when the cell is not on the border.
pub proof fn lemma_neighbors_offer_every_adjacent_cell(x: usize, y: usize, size: usize)
    ensures
        forall|p: Position|
            (p.x < size && p.y < size && x - 1 <= p.x <= x + 1 && y - 1 <= p.y <= y + 1 && (p.x
                != x || p.y != y)) <==> #[trigger] spec_neighbors(x, y, size).contains(p),
        0 < x && x + 1 < size && 0 < y && y + 1 < size ==> spec_neighbors(x, y, size).len() == 8,
{
    lemma_neighbors_are_king_moves(x, y, size);
    if 0 < x && x + 1 < size && 0 < y && y + 1 < size {
        let ds = spec_directions();
        reveal_with_fuel(neighbors_along, 9);
        assert(step_target(x, y, size, ds[0]) is Some);
        assert(step_target(x, y, size, ds[7]) is Some);
        assert(neighbors_along(ds, x, y, size).len() == 8);
    }
}

/// A king's move inside the grid is a change of at most one in the row and
/// in the column, landing inside the grid, that is not standing still.
pub proof fn lemma_king_move_arithmetic(x: usize, y: usize, size: usize, p: Position)
    ensures
        is_king_move_in_grid(x, y, size, p) <==> (p.x < size && p.y < size && x - 1 <= p.x <= x
            + 1 && y - 1 <= p.y <= y + 1 && (p.x != x || p.y != y)),
{
}

proof fn lemma_neighbors_along_len(ds: Seq<(isize, isize)>, x: usize, y: usize, size: usize)
    ensures
        neighbors_along(ds, x, y, size).len() <= ds.len(),
    decreases ds.len(),
{
    if ds.len() > 0 {
        lemma_neighbors_along_len(ds.drop_last(), x, y, size);
    }
}

/// The eight king moves, each once: every offset pair in -1..=1 but (0, 0).
pub proof fn lemma_directions_are_king_offsets()
    ensures
        spec_directions().len() == 8,
        spec_directions().no_duplicates(),
        forall|dx: isize, dy: isize|
            #[trigger] spec_directions().contains((dx, dy)) <==> (-1 <= dx <= 1 && -1 <= dy <= 1 && !(dx == 0 && dy == 0)),
{
    let ds = spec_directions();
    assert forall|dx: isize, dy: isize|
        #[trigger] ds.contains((dx, dy)) <==> (-1 <= dx <= 1 && -1 <= dy <= 1 && !(dx == 0 && dy == 0)) by {
        if -1 <= dx <= 1 && -1 <= dy <= 1 && !(dx == 0 && dy == 0) {
            let i: int = if dx == -1 {
                if dy == -1 { 0 } else if dy == 0 { 1 } else { 2 }
            } else if dx == 0 {
                if dy == -1 { 3 } else { 4 }
            } else {
                if dy == -1 { 5 } else if dy == 0 { 6 } else { 7 }
            };
            assert(ds[i] == (dx, dy));
        }
    }
}

/// `c + d`, if it lies in `0..size`.
fn offset(c: usize, d: isize, size: usize) -> (r: Option<usize>)
    requires
        -1 <= d <= 1,
    ensures
        r == (if 0 <= c + d < size { Some((c + d) as usize) } else { None::<usize> }),
{
    if d < 0 {
        if c >= 1 && c - 1 < size {
            Some(c - 1)
        } else {
            None
        }
    } else if d == 0 {
        if c < size {
            Some(c)
        } else {
            None
        }
    } else {
        if c < size && size - c > 1 {
            Some(c + 1)
        } else {
            None
        }
    }
}

/// The cells a king on `(x, y)` can move to in a `size` by `size` grid, in the
/// order in which the planners try them.
pub fn neighbors(x: usize, y: usize, size: usize) -> (r: Vec<Position>)
    ensures
        r@ == spec_neighbors(x, y, size),
{
    let ds = directions();
    let mut r: Vec<Position> = Vec::new();
    let mut i: usize = 0;
    while i < ds.len()
        invariant
            ds@ == spec_directions(),
            0 <= i <= ds.len(),
            r@ == neighbors_along(ds@.take(i as int), x, y, size),
        decreases ds.len() - i,
    {
        let (dx, dy) = ds[i];
        proof {
            assert(ds@.take(i + 1).drop_last() =~= ds@.take(i as int));
        }
        match (offset(x, dx, size), offset(y, dy, size)) {
            (Some(nx), Some(ny)) => {
                r.push(Position { x: nx, y: ny });
            },
            _ => {},
        }
        i = i + 1;
    }
    proof {
        assert(ds@.take(ds.len() as int) =~= ds@);
    }
    r
}

} // verus!
