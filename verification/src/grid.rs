use vstd::prelude::*;

use crate::utils::Position;

verus! {

/// The cell in row `x`, column `y` of `rows`, if there is one.
pub open spec fn spec_cell<T>(rows: Seq<Seq<T>>, x: usize, y: usize) -> Option<T> {
    if x < rows.len() && y < rows[x as int].len() {
        Some(rows[x as int][y as int])
    } else {
        None
    }
}

/// The rows of `rows` with `v` written in row `x`, column `y`, when that cell
/// exists; `rows` unchanged otherwise.
pub open spec fn spec_write<T>(rows: Seq<Seq<T>>, x: usize, y: usize, v: T) -> Seq<Seq<T>> {
    if x < rows.len() && y < rows[x as int].len() {
        rows.update(x as int, rows[x as int].update(y as int, v))
    } else {
        rows
    }
}

/// The cells of a map, row by row. Rows may differ in length; the size of the
/// map is its number of rows.
#[derive(Debug)]
pub struct Grid<T> {
    rows: Vec<Vec<T>>,
}

impl<T> View for Grid<T> {
    type V = Seq<Seq<T>>;

    closed spec fn view(&self) -> Seq<Seq<T>> {
        self.rows@.map_values(|r: Vec<T>| r@)
    }
}

impl<T: Copy> Grid<T> {
    /// A map holding `rows`.
    pub fn new(rows: Vec<Vec<T>>) -> (g: Self)
        ensures
            g@ == rows@.map_values(|r: Vec<T>| r@),
    {
        Grid { rows }
    }

    /// The number of rows.
    pub fn get_size(&self) -> (n: usize)
        ensures
            n == self@.len(),
    {
        self.rows.len()
    }

    /// The cell in row `x`, column `y`, or `None` outside the map.
    pub fn get(&self, x: usize, y: usize) -> (c: Option<T>)
        ensures
            c == spec_cell(self@, x, y),
            x < self@.len() && y < self@[x as int].len() ==> c == Some(self@[x as int][y as int]),
            c is None ==> x >= self@.len() || y >= self@[x as int].len(),
    {
        if x < self.rows.len() && y < self.rows[x].len() {
            Some(self.rows[x][y])
        } else {
            None
        }
    }

    /// Writes `v` in row `x`, column `y`; outside the map nothing changes.
    /// Gives whether the cell exists.
    pub fn set(&mut self, x: usize, y: usize, v: T) -> (written: bool)
        ensures
            written == spec_cell(old(self)@, x, y).is_some(),
            written == (x < old(self)@.len() && y < old(self)@[x as int].len()),
            written ==> final(self)@[x as int][y as int] == v,
            final(self)@ == spec_write(old(self)@, x, y, v),
    {
        if x < self.rows.len() && y < self.rows[x].len() {
            let ghost before = self.rows@;
            self.rows[x].set(y, v);
            proof {
                assert(self@ =~= spec_write(before.map_values(|r: Vec<T>| r@), x, y, v));
            }
            true
        } else {
            false
        }
    }
}



/// Every cell inside the rows reads as its value, and only cells past the
/// end of the rows, or past the end of their row, read as missing.
pub proof fn lemma_cells_inside_rows_exist<T>(rows: Seq<Seq<T>>, x: usize, y: usize)
    ensures
        x < rows.len() && y < rows[x as int].len() ==> spec_cell(rows, x, y) == Some(
            rows[x as int][y as int],
        ),
        spec_cell(rows, x, y) is None <==> (x >= rows.len() || y >= rows[x as int].len()),
        x < rows.len() && y < rows[x as int].len() ==> spec_write(rows, x, y, rows[x as int][y as int]) == rows,
{
    if x < rows.len() && y < rows[x as int].len() {
        assert(rows.update(x as int, rows[x as int].update(y as int, rows[x as int][y as int])) =~= rows) by {
            assert(rows[x as int].update(y as int, rows[x as int][y as int]) =~= rows[x as int]);
        }
    }
}

/// Reading a cell after a write gives what was written, when the cell exists;
/// every other cell reads as before.
pub proof fn lemma_read_after_write<T>(rows: Seq<Seq<T>>, x: usize, y: usize, v: T, x2: usize, y2: usize)
    ensures
        spec_cell(spec_write(rows, x, y, v), x2, y2) == (if x2 == x && y2 == y && spec_cell(
            rows,
            x,
            y,
        ).is_some() {
            Some(v)
        } else {
            spec_cell(rows, x2, y2)
        }),
        spec_write(rows, x, y, v).len() == rows.len(),
{
}

/// The cells that have been visited and have not yet grown back in full.
/// Each cell is held once.
#[derive(Debug)]
pub struct VisitedCells {
    cells: Vec<Position>,
}

impl View for VisitedCells {
    type V = Set<Position>;

    closed spec fn view(&self) -> Set<Position> {
        self.cells@.to_set()
    }
}

impl VisitedCells {
    /// No cell is held twice.
    pub closed spec fn wf(&self) -> bool {
        self.cells@.no_duplicates()
    }

    /// The empty set of cells.
    pub fn new() -> (s: Self)
        ensures
            s.wf(),
            s@ == Set::<Position>::empty(),
    {
        let s = VisitedCells { cells: Vec::new() };
        proof {
            assert(s.cells@.to_set() =~= Set::<Position>::empty());
        }
        s
    }

    fn index_of(&self, p: Position) -> (r: Option<usize>)
        ensures
            match r {
                Some(i) => i < self.cells@.len() && self.cells@[i as int] == p,
                None => !self.cells@.contains(p),
            },
    {
        let mut i: usize = 0;
        while i < self.cells.len()
            invariant
                0 <= i <= self.cells@.len(),
                forall|j: int| 0 <= j < i ==> self.cells@[j] != p,
            decreases self.cells@.len() - i,
        {
            if self.cells[i] == p {
                return Some(i);
            }
            i = i + 1;
        }
        None
    }

    /// Whether `p` is held.
    pub fn contains(&self, p: Position) -> (b: bool)
        ensures
            b == self@.contains(p),
    {
        self.index_of(p).is_some()
    }

    /// The number of cells held.
    pub fn len(&self) -> (n: usize)
        requires
            self.wf(),
        ensures
            n == self@.len(),
    {
        proof {
            self.cells@.unique_seq_to_set();
        }
        self.cells.len()
    }

    /// Adds `p`; gives whether it was not held before.
    pub fn insert(&mut self, p: Position) -> (added: bool)
        requires
            old(self).wf(),
        ensures
            final(self).wf(),
            added == !old(self)@.contains(p),
            final(self)@ == old(self)@.insert(p),
    {
        if self.index_of(p).is_some() {
            proof {
                assert(self@ =~= self@.insert(p));
            }
            false
        } else {
            let ghost before = self.cells@;
            self.cells.push(p);
            proof {
                assert(self.cells@ == before.push(p));
                assert(self.cells@.to_set() =~= before.to_set().insert(p)) by {
                    assert forall|q: Position| self.cells@.contains(q) <==> before.contains(q) || q == p by {
                        if self.cells@.contains(q) {
                            let k = choose|k: int| 0 <= k < self.cells@.len() && self.cells@[k] == q;
                            if k < before.len() {
                                assert(before[k] == q);
                            }
                        }
                        if before.contains(q) {
                            let k = choose|k: int| 0 <= k < before.len() && before[k] == q;
                            assert(self.cells@[k] == q);
                        }
                        if q == p {
                            assert(self.cells@[before.len() as int] == q);
                        }
                    }
                }
            }
            true
        }
    }

    /// Removes `p`; gives whether it was held.
    pub fn remove(&mut self, p: Position) -> (removed: bool)
        requires
            old(self).wf(),
        ensures
            final(self).wf(),
            removed == old(self)@.contains(p),
            final(self)@ == old(self)@.remove(p),
    {
        match self.index_of(p) {
            Some(i) => {
                let ghost before = self.cells@;
                self.cells.remove(i);
                proof {
                    let after = self.cells@;
                    assert(after =~= before.subrange(0, i as int) + before.subrange(i + 1, before.len() as int));
                    assert forall|a: int, b: int| 0 <= a < b < after.len() implies after[a] != after[b] by {
                        let a2 = if a < i { a } else { a + 1 };
                        let b2 = if b < i { b } else { b + 1 };
                        assert(after[a] == before[a2]);
                        assert(after[b] == before[b2]);
                    }
                    assert forall|q: Position| after.contains(q) <==> (before.contains(q) && q != p) by {
                        if after.contains(q) {
                            let k = choose|k: int| 0 <= k < after.len() && after[k] == q;
                            let k2 = if k < i { k } else { k + 1 };
                            assert(before[k2] == q);
                            assert(k2 != i);
                        }
                        if before.contains(q) && q != p {
                            let k = choose|k: int| 0 <= k < before.len() && before[k] == q;
                            assert(k != i);
                            if k < i {
                                assert(after[k] == q);
                            } else {
                                assert(after[k - 1] == q);
                            }
                        }
                    }
                    assert(after.to_set() =~= before.to_set().remove(p));
                }
                true
            },
            None => {
                proof {
                    assert(self@ =~= self@.remove(p));
                }
                false
            },
        }
    }

    /// The cells held, each once, in no particular order.
    pub fn to_vec(&self) -> (v: Vec<Position>)
        requires
            self.wf(),
        ensures
            v@.no_duplicates(),
            v@.to_set() == self@,
    {
        self.cells.clone()
    }
}

} // verus!
