use drone_path_planner::algorithms::PathWalk;
use drone_path_planner::utils::{directions, neighbors, Position};

fn pos(x: usize, y: usize) -> Position {
    Position { x, y }
}

#[test]
fn directions_are_the_eight_king_moves_in_order() {
    assert_eq!(
        directions(),
        vec![(-1, -1), (-1, 0), (-1, 1), (0, -1), (0, 1), (1, -1), (1, 0), (1, 1)]
    );
}

#[test]
fn neighbors_in_the_middle() {
    assert_eq!(
        neighbors(1, 1, 3),
        vec![pos(0, 0), pos(0, 1), pos(0, 2), pos(1, 0), pos(1, 2), pos(2, 0), pos(2, 1), pos(2, 2)]
    );
}

#[test]
fn neighbors_in_a_corner_and_on_an_edge() {
    assert_eq!(neighbors(0, 0, 3), vec![pos(0, 1), pos(1, 0), pos(1, 1)]);
    assert_eq!(neighbors(2, 1, 3), vec![pos(1, 0), pos(1, 1), pos(1, 2), pos(2, 0), pos(2, 2)]);
    assert_eq!(neighbors(0, 0, 1), vec![]);
}

#[test]
fn neighbors_outside_the_grid() {
    // A cell beyond the edge still reaches the cells just inside it.
    assert_eq!(neighbors(3, 3, 3), vec![pos(2, 2)]);
    assert_eq!(neighbors(5, 0, 3), vec![]);
    assert_eq!(neighbors(usize::MAX, usize::MAX, usize::MAX), vec![pos(usize::MAX - 1, usize::MAX - 1)]);
}

#[test]
fn walk_starts_where_asked_and_follows_king_moves() {
    let mut w = PathWalk::new(pos(0, 0), 3, 5);
    assert_eq!(w.current(), pos(0, 0));
    assert_eq!(w.candidate_moves(), vec![pos(0, 1), pos(1, 0), pos(1, 1)]);
    assert!(w.advance(pos(1, 1)));
    assert_eq!(w.current(), pos(1, 1));
    // Not a king's move, outside the grid, or standing still: refused.
    assert!(!w.advance(pos(1, 3)));
    assert!(!w.advance(pos(3, 1)));
    assert!(!w.advance(pos(1, 1)));
    assert!(w.advance(pos(2, 2)));
    assert_eq!(w.into_path(), vec![pos(0, 0), pos(1, 1), pos(2, 2)]);
}

#[test]
fn walk_respects_step_limit() {
    let mut w = PathWalk::new(pos(1, 1), 3, 3);
    let mut moves = 0;
    for next in [pos(0, 0), pos(0, 1), pos(1, 1), pos(2, 2), pos(2, 1)] {
        if w.has_steps_left() {
            assert!(w.advance(next));
            moves += 1;
        } else {
            assert!(!w.advance(next));
        }
    }
    assert_eq!(moves, 3);
    let path = w.into_path();
    assert!(path.len() <= 4);
    assert_eq!(path, vec![pos(1, 1), pos(0, 0), pos(0, 1), pos(1, 1)]);
}

#[test]
fn walk_with_no_steps_stays_at_start() {
    let mut w = PathWalk::new(pos(2, 2), 3, 0);
    assert!(!w.has_steps_left());
    assert!(!w.advance(pos(1, 1)));
    assert_eq!(w.into_path(), vec![pos(2, 2)]);
}

#[test]
fn walk_moves_are_offered_neighbors() {
    let mut w = PathWalk::new(pos(0, 2), 4, 10);
    for next in [pos(1, 3), pos(2, 3), pos(3, 2), pos(3, 1), pos(2, 0)] {
        assert!(w.candidate_moves().contains(&next));
        assert!(w.advance(next));
    }
    let path = w.into_path();
    assert_eq!(path[0], pos(0, 2));
    for i in 0..path.len() - 1 {
        assert!(neighbors(path[i].x, path[i].y, 4).contains(&path[i + 1]));
    }
}
