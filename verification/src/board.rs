//! The grid model: a 9x9 board of optional digits with value-based
//! construction, access, and row-major enumeration.

use vstd::prelude::*;
use crate::rules::{board_wf, cell, digit_ok};

verus! {

/// A 9x9 Sudoku board, stored row-major: entry `9 * r + c` is the cell at
/// row `r`, column `c`, either empty or a digit in `[1, 9]`.
pub struct Board {
    grid: Vec<Option<usize>>,
}

impl View for Board {
    type V = Seq<Option<usize>>;

    closed spec fn view(&self) -> Seq<Option<usize>> {
        self.grid@
    }
}

impl Board {
    /// The board's invariant: 81 cells, every filled cell in `[1, 9]`.
    pub open spec fn wf(&self) -> bool {
        board_wf(self@)
    }

    /// Builds a board from a dense grid of rows, `0` meaning empty.
    /// Returns `None` exactly when the grid is not 9x9 or holds an entry
    /// above 9.
    pub fn new(rows: &Vec<Vec<usize>>) -> (r: Option<Board>)
        ensures
            r is Some <==> (rows@.len() == 9
                && (forall|i: int| 0 <= i < 9 ==> (#[trigger] rows@[i])@.len() == 9)
                && (forall|i: int, j: int|
                    0 <= i < 9 && 0 <= j < 9 ==> (#[trigger] rows@[i]@[j]) <= 9)),
            r matches Some(b) ==> b.wf() && forall|i: int, j: int|
                0 <= i < 9 && 0 <= j < 9 ==> #[trigger] cell(b@, i, j)
                    == (if rows@[i]@[j] == 0 { None::<usize> } else { Some(rows@[i]@[j]) }),
    {
        if rows.len() != 9 {
            return None;
        }
        let mut grid: Vec<Option<usize>> = Vec::new();
        let mut i: usize = 0;
        while i < 9
            invariant
                i <= 9,
                rows@.len() == 9,
                grid@.len() == 9 * i,
                forall|i2: int| 0 <= i2 < i ==> (#[trigger] rows@[i2])@.len() == 9,
                forall|i2: int, j2: int|
                    0 <= i2 < i && 0 <= j2 < 9 ==> (#[trigger] rows@[i2]@[j2]) <= 9,
                forall|i2: int, j2: int|
                    0 <= i2 < i && 0 <= j2 < 9 ==> #[trigger] grid@[9 * i2 + j2]
                        == (if rows@[i2]@[j2] == 0 { None::<usize> } else {
                            Some(rows@[i2]@[j2])
                        }),
            decreases 9 - i,
        {
            if rows[i].len() != 9 {
                return None;
            }
            let mut j: usize = 0;
            while j < 9
                invariant
                    i < 9,
                    j <= 9,
                    rows@.len() == 9,
                    rows@[i as int]@.len() == 9,
                    grid@.len() == 9 * i + j,
                    forall|i2: int| 0 <= i2 < i ==> (#[trigger] rows@[i2])@.len() == 9,
                    forall|i2: int, j2: int|
                        0 <= i2 < i && 0 <= j2 < 9 ==> (#[trigger] rows@[i2]@[j2]) <= 9,
                    forall|j2: int| 0 <= j2 < j ==> (#[trigger] rows@[i as int]@[j2]) <= 9,
                    forall|i2: int, j2: int|
                        0 <= i2 < 9 && 0 <= j2 < 9 && 9 * i2 + j2 < 9 * i + j
                            ==> #[trigger] grid@[9 * i2 + j2]
                                == (if rows@[i2]@[j2] == 0 { None::<usize> } else {
                                    Some(rows@[i2]@[j2])
                                }),
                decreases 9 - j,
            {
                let v = rows[i][j];
                if v > 9 {
                    return None;
                }
                grid.push(if v == 0 { None } else { Some(v) });
                j = j + 1;
            }
            i = i + 1;
        }
        let b = Board { grid };
        assert(b.wf()) by {
            assert forall|k: int| 0 <= k < 81 implies digit_ok(#[trigger] b@[k]) by {
                let i2 = k / 9;
                let j2 = k % 9;
                assert(b@[9 * i2 + j2] == (if rows@[i2]@[j2] == 0 { None::<usize> } else {
                    Some(rows@[i2]@[j2])
                }));
            }
        }
        Some(b)
    }

    /// Builds a board directly from 81 row-major cells.
    pub fn from_cells(grid: Vec<Option<usize>>) -> (r: Board)
        requires
            board_wf(grid@),
        ensures
            r@ == grid@,
    {
        Board { grid }
    }

    /// The cell at `(row, col)`.
    pub fn get(&self, row: usize, col: usize) -> (r: Option<usize>)
        requires
            self.wf(),
            row < 9,
            col < 9,
        ensures
            r == cell(self@, row as int, col as int),
    {
        self.grid[9 * row + col]
    }

    /// Overwrites the cell at `(row, col)`.
    pub fn set(&mut self, row: usize, col: usize, value: Option<usize>)
        requires
            old(self).wf(),
            row < 9,
            col < 9,
            digit_ok(value),
        ensures
            final(self)@ == old(self)@.update(9 * row + col, value),
            final(self).wf(),
    {
        self.grid[9 * row + col] = value;
    }

    /// All 81 cells as `(row, col, value)` triples, in row-major order.
    pub fn cells(&self) -> (r: Vec<(usize, usize, Option<usize>)>)
        requires
            self.wf(),
        ensures
            r@.len() == 81,
            forall|k: int| 0 <= k < 81 ==> (#[trigger] r@[k]).0 == k / 9
                && r@[k].1 == k % 9 && r@[k].2 == self@[k],
    {
        let mut r: Vec<(usize, usize, Option<usize>)> = Vec::new();
        let mut row: usize = 0;
        while row < 9
            invariant
                self.wf(),
                row <= 9,
                r@.len() == 9 * row,
                forall|k: int| 0 <= k < 9 * row ==> (#[trigger] r@[k]).0 == k / 9
                    && r@[k].1 == k % 9 && r@[k].2 == self@[k],
            decreases 9 - row,
        {
            let mut col: usize = 0;
            while col < 9
                invariant
                    self.wf(),
                    row < 9,
                    col <= 9,
                    r@.len() == 9 * row + col,
                    forall|k: int| 0 <= k < 9 * row + col ==> (#[trigger] r@[k]).0 == k / 9
                        && r@[k].1 == k % 9 && r@[k].2 == self@[k],
                decreases 9 - col,
            {
                r.push((row, col, self.grid[9 * row + col]));
                col = col + 1;
            }
            row = row + 1;
        }
        r
    }
}

} // verus!
