//! The backtracking solver: depth-first search over the cells in
//! row-major order, pruned by the constraint evaluator. `solve` returns
//! `true` exactly when the board has a full valid completion, and on
//! failure restores the board to its starting contents.

use vstd::prelude::*;
use crate::board::Board;
use crate::rules::{
    agree_before, board_wf, candidate, cell, completes_from, extends, full, full_from,
    lemma_completion_digit_is_candidate, lemma_invalid_unsolvable, lemma_place_candidate,
    solvable, solvable_from, val_of, valid,
};

verus! {

impl Board {
    /// Fills every empty cell with a digit so that the whole board
    /// satisfies the uniqueness constraints, if that is possible: returns
    /// `true` and leaves the solved board exactly when a solution exists,
    /// and otherwise returns `false` with the board unchanged.
    pub fn solve(&mut self) -> (r: bool)
        requires
            old(self).wf(),
        ensures
            final(self).wf(),
            r == solvable(old(self)@),
            r ==> full(final(self)@) && valid(final(self)@)
                && extends(final(self)@, old(self)@),
            !r ==> final(self)@ == old(self)@,
    {
        if !self.is_valid() {
            proof {
                lemma_invalid_unsolvable(self@);
            }
            return false;
        }
        self.solve_aux(0, 0)
    }

    /// One step of the search, at the cell `(row, col)`: treats every cell
    /// before it (in row-major order) as settled and tries to fill every
    /// cell from it on. Returns `true` exactly when the board from that
    /// position on can be completed; on failure the board is unchanged.
    pub fn solve_aux(&mut self, row: usize, col: usize) -> (r: bool)
        requires
            old(self).wf(),
            valid(old(self)@),
            row <= 9,
            col <= 9,
            9 * row + col <= 81,
        ensures
            final(self).wf(),
            r == solvable_from(old(self)@, 9 * row + col),
            r ==> valid(final(self)@) && full_from(final(self)@, 9 * row + col)
                && agree_before(final(self)@, old(self)@, 9 * row + col)
                && extends(final(self)@, old(self)@),
            !r ==> final(self)@ == old(self)@,
        decreases 81 - 9 * row - col, (if col == 9 { 1int } else { 0int }),
    {
        let ghost t = self@;
        let p = 9 * row + col;
        // Below the last row: every cell was processed, the board is done.
        if row == 9 {
            proof {
                assert(completes_from(t, t, 81));
            }
            return true;
        }
        // Past the last column: wrap to the start of the next row.
        if col == 9 {
            return self.solve_aux(row + 1, 0);
        }
        let cur = self.get(row, col);
        // A given cell: keep it and move on.
        if cur.is_some() {
            let r = self.solve_aux(row, col + 1);
            proof {
                if solvable_from(t, p + 1) {
                    let s = choose|s: Seq<Option<usize>>| #[trigger] completes_from(s, t, p + 1);
                    assert(s[p as int] == t[p as int]);
                    assert(completes_from(s, t, p as int));
                }
                if solvable_from(t, p as int) {
                    let s = choose|s: Seq<Option<usize>>| #[trigger] completes_from(s, t, p as int);
                    assert(t[p as int] is Some);
                    assert(s[p as int] == t[p as int]);
                    assert(completes_from(s, t, p + 1));
                }
            }
            return r;
        }
        // An empty cell: try each candidate digit in ascending order.
        let moves = self.valid_moves(row, col);
        let ghost mvs = moves@;
        let mut k: usize = 0;
        while k < moves.len()
            invariant
                self.wf(),
                row < 9,
                col < 9,
                p == 9 * row + col,
                t == old(self)@,
                board_wf(t),
                valid(t),
                cell(t, row as int, col as int) is None,
                moves@ == mvs,
                k <= mvs.len(),
                forall|kk: int| 0 <= kk < mvs.len() ==> ((#[trigger] mvs[kk]) matches Some(e)
                    && candidate(t, row as int, col as int, e)),
                forall|e: usize| #[trigger] candidate(t, row as int, col as int, e)
                    ==> mvs.contains(Some(e)),
                self@ == (if k == 0 { t } else { t.update(p as int, mvs[k - 1]) }),
                forall|j: int| 0 <= j < k
                    ==> !solvable_from(#[trigger] t.update(p as int, mvs[j]), p + 1),
            decreases moves.len() - k,
        {
            let mv = moves[k];
            self.set(row, col, mv);
            proof {
                assert(self@ =~= t.update(p as int, mvs[k as int]));
                assert(mvs[k as int] == Some(val_of(mvs[k as int])));
                lemma_place_candidate(t, row as int, col as int, val_of(mvs[k as int]));
            }
            let ghost u = self@;
            if self.solve_aux(row, col + 1) {
                proof {
                    assert(self@[p as int] == u[p as int]);
                    assert(full_from(self@, p as int));
                    assert(agree_before(self@, t, p as int));
                    assert(extends(self@, t)) by {
                        assert forall|i: int| 0 <= i < 81 && #[trigger] t[i] is Some
                            implies self@[i] == t[i] by {
                            assert(u[i] == t[i]);
                        }
                    }
                    assert(completes_from(self@, t, p as int));
                }
                return true;
            }
            k = k + 1;
        }
        self.set(row, col, None);
        proof {
            assert(self@ =~= t);
            assert(!solvable_from(t, p as int)) by {
                if solvable_from(t, p as int) {
                    let s = choose|s: Seq<Option<usize>>| #[trigger] completes_from(s, t, p as int);
                    lemma_completion_digit_is_candidate(s, t, row as int, col as int);
                    let d = val_of(cell(s, row as int, col as int));
                    assert(mvs.contains(Some(d)));
                    let j = choose|j: int| 0 <= j < mvs.len() && mvs[j] == Some(d);
                    let u2 = t.update(p as int, Some(d));
                    assert(s[p as int] == Some(d));
                    assert(agree_before(s, u2, p + 1));
                    assert(extends(s, u2)) by {
                        assert forall|i: int| 0 <= i < 81 && #[trigger] u2[i] is Some
                            implies s[i] == u2[i] by {
                            if i != p as int {
                                assert(t[i] is Some);
                            }
                        }
                    }
                    assert(completes_from(s, u2, p + 1));
                    assert(!solvable_from(t.update(p as int, mvs[j]), p + 1));
                    assert(false);
                }
            }
        }
        false
    }
}

/// A solved board is a fixed point of the solver: a full valid board is
/// solvable, and the only board that completes it is itself, so a second
/// `solve` returns `true` and changes nothing.
pub proof fn lemma_solved_board_fixed(b: Seq<Option<usize>>)
    requires
        board_wf(b),
        valid(b),
        full(b),
    ensures
        solvable(b),
        forall|s: Seq<Option<usize>>| #[trigger] completes_from(s, b, 0) ==> s == b,
{
    assert(completes_from(b, b, 0));
    assert forall|s: Seq<Option<usize>>| #[trigger] completes_from(s, b, 0) implies s == b by {
        assert forall|i: int| 0 <= i < 81 implies s[i] == b[i] by {
            assert(b[i] is Some);
        }
        assert(s =~= b);
    }
}

} // verus!
