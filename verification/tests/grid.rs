use drone_path_planner::grid::{Grid, VisitedCells};
use drone_path_planner::grid_text::{grid_rows, is_whitespace};
use drone_path_planner::utils::Position;

fn rows(text: &str) -> Vec<Vec<String>> {
    grid_rows(text)
}

fn strs(v: &[&[&str]]) -> Vec<Vec<String>> {
    v.iter().map(|r| r.iter().map(|s| s.to_string()).collect()).collect()
}

#[test]
fn grid_text_square() {
    assert_eq!(
        rows("1 2 3\n4 5 6\n7 8 9\n"),
        strs(&[&["1", "2", "3"], &["4", "5", "6"], &["7", "8", "9"]])
    );
}

#[test]
fn grid_text_blank_lines_crlf_and_tabs() {
    assert_eq!(
        rows("\n  1.5\t2 \r\n\r\n   \n3   4e2\r\n"),
        strs(&[&["1.5", "2"], &["3", "4e2"]])
    );
    assert_eq!(rows(""), strs(&[]));
    assert_eq!(rows("   \n\t\n"), strs(&[]));
    assert_eq!(rows("7"), strs(&[&["7"]]));
}

#[test]
fn grid_text_unicode_space_and_ragged_rows() {
    assert_eq!(
        rows("1\u{00A0}2\u{3000}3\n4 5\n6"),
        strs(&[&["1", "2", "3"], &["4", "5"], &["6"]])
    );
    // Not white space: kept inside the value.
    assert_eq!(rows("1\u{200B}2"), strs(&[&["1\u{200B}2"]]));
}

#[test]
fn whitespace_matches_std() {
    for u in 0u32..0x3100 {
        if let Some(c) = char::from_u32(u) {
            assert_eq!(is_whitespace(c), c.is_whitespace(), "{:x}", u);
        }
    }
}

#[test]
fn grid_get_set_and_out_of_range() {
    let mut g = Grid::new(vec![vec![1u32, 2, 3], vec![4, 5, 6], vec![7, 8]]);
    assert_eq!(g.get_size(), 3);
    assert_eq!(g.get(0, 0), Some(1));
    assert_eq!(g.get(1, 1), Some(5));
    assert_eq!(g.get(2, 2), None);
    assert_eq!(g.get(10, 10), None);
    assert!(g.set(1, 1, 0));
    assert_eq!(g.get(1, 1), Some(0));
    assert_eq!(g.get(1, 2), Some(6));
    assert!(!g.set(2, 2, 9));
    assert_eq!(g.get(2, 2), None);
}

#[test]
fn visited_cells_insert_remove() {
    let mut v = VisitedCells::new();
    assert_eq!(v.len(), 0);
    assert!(v.insert(Position { x: 1, y: 1 }));
    assert!(!v.insert(Position { x: 1, y: 1 }));
    assert!(v.insert(Position { x: 0, y: 2 }));
    assert_eq!(v.len(), 2);
    assert!(v.contains(Position { x: 0, y: 2 }));
    let mut all = v.to_vec();
    all.sort_by_key(|p| (p.x, p.y));
    assert_eq!(all, vec![Position { x: 0, y: 2 }, Position { x: 1, y: 1 }]);
    assert!(v.remove(Position { x: 1, y: 1 }));
    assert!(!v.remove(Position { x: 1, y: 1 }));
    assert!(!v.contains(Position { x: 1, y: 1 }));
    assert_eq!(v.len(), 1);
}
