//! The constraint evaluator: which digits may go into a cell, and whether
//! a whole board satisfies the row/column/box uniqueness constraints.

use vstd::prelude::*;
use crate::board::Board;
use crate::rules::{
    candidate, cell, in_box_upto, in_col_upto, in_row_upto, peers, val_of, valid,
};

verus! {

impl Board {
    /// The candidate digits for the cell `(row, col)`: every digit in
    /// `[1, 9]` absent from that cell's row, column, and box, in ascending
    /// order, each wrapped in `Some` as the solver places them verbatim.
    pub fn valid_moves(&self, row: usize, col: usize) -> (r: Vec<Option<usize>>)
        requires
            self.wf(),
            row < 9,
            col < 9,
        ensures
            forall|k: int| 0 <= k < r@.len() ==> ((#[trigger] r@[k]) matches Some(d)
                && candidate(self@, row as int, col as int, d)),
            forall|d: usize| #[trigger] candidate(self@, row as int, col as int, d)
                ==> r@.contains(Some(d)),
            forall|k1: int, k2: int| #![trigger r@[k1], r@[k2]]
                0 <= k1 < k2 < r@.len() ==> val_of(r@[k1]) < val_of(r@[k2]),
    {
        let ghost s = self@;
        let mut seen: Vec<bool> = Vec::new();
        let mut t: usize = 0;
        while t < 9
            invariant
                t <= 9,
                seen@.len() == t,
                forall|i: int| 0 <= i < t ==> !(#[trigger] seen@[i]),
            decreases 9 - t,
        {
            seen.push(false);
            t = t + 1;
        }

        // mark every digit present in row `row`
        let mut i: usize = 0;
        while i < 9
            invariant
                self.wf(),
                s == self@,
                row < 9,
                col < 9,
                i <= 9,
                seen@.len() == 9,
                forall|e: usize| 1 <= e <= 9
                    ==> #[trigger] seen@[e - 1] == in_row_upto(s, row as int, e, i as int),
            decreases 9 - i,
        {
            let m = self.get(row, i);
            if let Some(v) = m {
                seen[v - 1] = true;
            }
            proof {
                assert forall|e: usize| 1 <= e <= 9 implies
                    #[trigger] seen@[e - 1] == in_row_upto(s, row as int, e, i as int + 1) by {
                    if cell(s, row as int, i as int) == Some(e) {
                        assert(in_row_upto(s, row as int, e, i as int + 1));
                        assert(seen@[e - 1]);
                    } else {
                        if in_row_upto(s, row as int, e, i as int + 1) {
                            let c2 = choose|c2: int|
                                0 <= c2 < i + 1 && #[trigger] cell(s, row as int, c2) == Some(e);
                            assert(c2 < i);
                            assert(in_row_upto(s, row as int, e, i as int));
                        }
                        if in_row_upto(s, row as int, e, i as int) {
                            let c2 = choose|c2: int|
                                0 <= c2 < i && #[trigger] cell(s, row as int, c2) == Some(e);
                            assert(in_row_upto(s, row as int, e, i as int + 1));
                        }
                    }
                }
            }
            i = i + 1;
        }

        // mark every digit present in column `col`
        let mut i: usize = 0;
        while i < 9
            invariant
                self.wf(),
                s == self@,
                row < 9,
                col < 9,
                i <= 9,
                seen@.len() == 9,
                forall|e: usize| 1 <= e <= 9
                    ==> #[trigger] seen@[e - 1] == (in_row_upto(s, row as int, e, 9)
                        || in_col_upto(s, col as int, e, i as int)),
            decreases 9 - i,
        {
            let m = self.get(i, col);
            if let Some(v) = m {
                seen[v - 1] = true;
            }
            proof {
                assert forall|e: usize| 1 <= e <= 9 implies
                    #[trigger] seen@[e - 1] == (in_row_upto(s, row as int, e, 9)
                        || in_col_upto(s, col as int, e, i as int + 1)) by {
                    if cell(s, i as int, col as int) == Some(e) {
                        assert(in_col_upto(s, col as int, e, i as int + 1));
                        assert(seen@[e - 1]);
                    } else {
                        if in_col_upto(s, col as int, e, i as int + 1) {
                            let r2 = choose|r2: int|
                                0 <= r2 < i + 1 && #[trigger] cell(s, r2, col as int) == Some(e);
                            assert(r2 < i);
                            assert(in_col_upto(s, col as int, e, i as int));
                        }
                        if in_col_upto(s, col as int, e, i as int) {
                            let r2 = choose|r2: int|
                                0 <= r2 < i && #[trigger] cell(s, r2, col as int) == Some(e);
                            assert(in_col_upto(s, col as int, e, i as int + 1));
                        }
                    }
                }
            }
            i = i + 1;
        }

        // mark every digit present in the box containing `(row, col)`
        let mr = 3 * (row / 3);
        let mc = 3 * (col / 3);
        let mut j: usize = 0;
        while j < 9
            invariant
                self.wf(),
                s == self@,
                row < 9,
                col < 9,
                mr == 3 * (row / 3),
                mc == 3 * (col / 3),
                j <= 9,
                seen@.len() == 9,
                forall|e: usize| 1 <= e <= 9
                    ==> #[trigger] seen@[e - 1] == (in_row_upto(s, row as int, e, 9)
                        || in_col_upto(s, col as int, e, 9)
                        || in_box_upto(s, mr as int, mc as int, e, j as int)),
            decreases 9 - j,
        {
            let m = self.get(mr + j / 3, mc + j % 3);
            if let Some(v) = m {
                seen[v - 1] = true;
            }
            proof {
                assert forall|e: usize| 1 <= e <= 9 implies
                    #[trigger] seen@[e - 1] == (in_row_upto(s, row as int, e, 9)
                        || in_col_upto(s, col as int, e, 9)
                        || in_box_upto(s, mr as int, mc as int, e, j as int + 1)) by {
                    if cell(s, mr as int + (j as int) / 3, mc as int + (j as int) % 3) == Some(e) {
                        assert(in_box_upto(s, mr as int, mc as int, e, j as int + 1));
                        assert(seen@[e - 1]);
                    } else {
                        if in_box_upto(s, mr as int, mc as int, e, j as int + 1) {
                            let j2 = choose|j2: int|
                                0 <= j2 < j + 1
                                    && #[trigger] cell(s, mr as int + j2 / 3, mc as int + j2 % 3)
                                        == Some(e);
                            assert(j2 < j);
                            assert(in_box_upto(s, mr as int, mc as int, e, j as int));
                        }
                        if in_box_upto(s, mr as int, mc as int, e, j as int) {
                            let j2 = choose|j2: int|
                                0 <= j2 < j
                                    && #[trigger] cell(s, mr as int + j2 / 3, mc as int + j2 % 3)
                                        == Some(e);
                            assert(in_box_upto(s, mr as int, mc as int, e, j as int + 1));
                        }
                    }
                }
            }
            j = j + 1;
        }

        // collect the unmarked digits, in ascending order
        let mut r: Vec<Option<usize>> = Vec::new();
        let mut d: usize = 1;
        while d <= 9
            invariant
                self.wf(),
                s == self@,
                row < 9,
                col < 9,
                1 <= d <= 10,
                seen@.len() == 9,
                forall|e: usize| 1 <= e <= 9
                    ==> #[trigger] seen@[e - 1] == !candidate(s, row as int, col as int, e),
                forall|k: int| 0 <= k < r@.len() ==> ((#[trigger] r@[k]) matches Some(e)
                    && candidate(s, row as int, col as int, e) && e < d),
                forall|e: usize| 1 <= e < d && #[trigger] candidate(s, row as int, col as int, e)
                    ==> r@.contains(Some(e)),
                forall|k1: int, k2: int| #![trigger r@[k1], r@[k2]]
                    0 <= k1 < k2 < r@.len() ==> val_of(r@[k1]) < val_of(r@[k2]),
            decreases 10 - d,
        {
            if !seen[d - 1] {
                let ghost r_old = r@;
                r.push(Some(d));
                proof {
                    assert forall|e: usize|
                        1 <= e < d + 1 && #[trigger] candidate(s, row as int, col as int, e)
                        implies r@.contains(Some(e)) by {
                        if e == d {
                            assert(r@[r@.len() - 1] == Some(e));
                        } else {
                            let k = choose|k: int|
                                0 <= k < r_old.len() && r_old[k] == Some(e);
                            assert(r@[k] == Some(e));
                        }
                    }
                }
            }
            d = d + 1;
        }
        r
    }

    /// Whether the filled cells of the board satisfy the row, column, and
    /// box uniqueness constraints.
    pub fn is_valid(&self) -> (r: bool)
        requires
            self.wf(),
        ensures
            r == valid(self@),
    {
        let ghost s = self@;
        let mut r1: usize = 0;
        while r1 < 9
            invariant
                self.wf(),
                s == self@,
                r1 <= 9,
                forall|a: int, b: int, x: int, y: int|
                    #![trigger cell(s, a, b), cell(s, x, y)]
                    0 <= a < r1 && 0 <= b < 9 && 0 <= x < 9 && 0 <= y < 9
                        && peers(a, b, x, y) && cell(s, a, b) is Some
                        ==> cell(s, a, b) != cell(s, x, y),
            decreases 9 - r1,
        {
            let mut c1: usize = 0;
            while c1 < 9
                invariant
                    self.wf(),
                    s == self@,
                    r1 < 9,
                    c1 <= 9,
                    forall|a: int, b: int, x: int, y: int|
                        #![trigger cell(s, a, b), cell(s, x, y)]
                        0 <= a < r1 && 0 <= b < 9 && 0 <= x < 9 && 0 <= y < 9
                            && peers(a, b, x, y) && cell(s, a, b) is Some
                            ==> cell(s, a, b) != cell(s, x, y),
                    forall|b: int, x: int, y: int|
                        #![trigger cell(s, r1 as int, b), cell(s, x, y)]
                        0 <= b < c1 && 0 <= x < 9 && 0 <= y < 9
                            && peers(r1 as int, b, x, y) && cell(s, r1 as int, b) is Some
                            ==> cell(s, r1 as int, b) != cell(s, x, y),
                decreases 9 - c1,
            {
                let v1 = self.get(r1, c1);
                if v1.is_some() {
                    let mut r2: usize = 0;
                    while r2 < 9
                        invariant
                            self.wf(),
                            s == self@,
                            r1 < 9,
                            c1 < 9,
                            r2 <= 9,
                            v1 == cell(s, r1 as int, c1 as int),
                            v1 is Some,
                            forall|x: int, y: int|
                                #![trigger cell(s, x, y)]
                                0 <= x < r2 && 0 <= y < 9
                                    && peers(r1 as int, c1 as int, x, y)
                                    ==> cell(s, r1 as int, c1 as int) != cell(s, x, y),
                        decreases 9 - r2,
                    {
                        let mut c2: usize = 0;
                        while c2 < 9
                            invariant
                                self.wf(),
                                s == self@,
                                r1 < 9,
                                c1 < 9,
                                r2 < 9,
                                c2 <= 9,
                                v1 == cell(s, r1 as int, c1 as int),
                                v1 is Some,
                                forall|x: int, y: int|
                                    #![trigger cell(s, x, y)]
                                    0 <= x < r2 && 0 <= y < 9
                                        && peers(r1 as int, c1 as int, x, y)
                                        ==> cell(s, r1 as int, c1 as int) != cell(s, x, y),
                                forall|y: int|
                                    #![trigger cell(s, r2 as int, y)]
                                    0 <= y < c2 && peers(r1 as int, c1 as int, r2 as int, y)
                                        ==> cell(s, r1 as int, c1 as int) != cell(s, r2 as int, y),
                            decreases 9 - c2,
                        {
                            let distinct = r1 != r2 || c1 != c2;
                            let linked = r1 == r2 || c1 == c2
                                || (r1 / 3 == r2 / 3 && c1 / 3 == c2 / 3);
                            if distinct && linked {
                                let v2 = self.get(r2, c2);
                                if let (Some(a), Some(b)) = (v1, v2) {
                                    if a == b {
                                        assert(peers(r1 as int, c1 as int, r2 as int, c2 as int));
                                        assert(!valid(s));
                                        return false;
                                    }
                                }
                            }
                            c2 = c2 + 1;
                        }
                        r2 = r2 + 1;
                    }
                }
                c1 = c1 + 1;
            }
            r1 = r1 + 1;
        }
        true
    }
}

} // verus!
