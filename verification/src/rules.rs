//! The mathematical model of a Sudoku board: cells, the row/column/box
//! uniqueness constraints, candidate digits, and solvability.

use vstd::prelude::*;

verus! {

/// The digit stored in a `Some` cell (arbitrary for `None`).
pub open spec fn val_of(o: Option<usize>) -> usize {
    o->0
}

/// A cell holds either nothing or a digit in `[1, 9]`.
pub open spec fn digit_ok(o: Option<usize>) -> bool {
    o matches Some(d) ==> 1 <= d <= 9
}

/// The cell of a row-major 81-element grid at row `r`, column `c`.
pub open spec fn cell(s: Seq<Option<usize>>, r: int, c: int) -> Option<usize> {
    s[9 * r + c]
}

/// A well-formed grid: 81 cells, every filled cell a digit in `[1, 9]`.
pub open spec fn board_wf(s: Seq<Option<usize>>) -> bool {
    &&& s.len() == 81
    &&& forall|i: int| 0 <= i < 81 ==> digit_ok(#[trigger] s[i])
}

/// Two distinct positions constrain each other: same row, same column,
/// or same 3x3 box.
pub open spec fn peers(r1: int, c1: int, r2: int, c2: int) -> bool {
    &&& (r1 != r2 || c1 != c2)
    &&& (r1 == r2 || c1 == c2 || (r1 / 3 == r2 / 3 && c1 / 3 == c2 / 3))
}

/// No two filled peer cells hold the same digit.
pub open spec fn valid(s: Seq<Option<usize>>) -> bool {
    forall|r1: int, c1: int, r2: int, c2: int|
        #![trigger cell(s, r1, c1), cell(s, r2, c2)]
        0 <= r1 < 9 && 0 <= c1 < 9 && 0 <= r2 < 9 && 0 <= c2 < 9
            && peers(r1, c1, r2, c2) && cell(s, r1, c1) is Some
            ==> cell(s, r1, c1) != cell(s, r2, c2)
}

/// Digit `d` appears among the first `n` cells of row `r`.
pub open spec fn in_row_upto(s: Seq<Option<usize>>, r: int, d: usize, n: int) -> bool {
    exists|c: int| 0 <= c < n && #[trigger] cell(s, r, c) == Some(d)
}

/// Digit `d` appears somewhere in row `r`.
pub open spec fn in_row(s: Seq<Option<usize>>, r: int, d: usize) -> bool {
    in_row_upto(s, r, d, 9)
}

/// Digit `d` appears among the first `n` cells of column `c`.
pub open spec fn in_col_upto(s: Seq<Option<usize>>, c: int, d: usize, n: int) -> bool {
    exists|r: int| 0 <= r < n && #[trigger] cell(s, r, c) == Some(d)
}

/// Digit `d` appears somewhere in column `c`.
pub open spec fn in_col(s: Seq<Option<usize>>, c: int, d: usize) -> bool {
    in_col_upto(s, c, d, 9)
}

/// Digit `d` appears among the first `n` cells (in row-major order) of the
/// 3x3 box whose top-left corner is `(mr, mc)`.
pub open spec fn in_box_upto(s: Seq<Option<usize>>, mr: int, mc: int, d: usize, n: int) -> bool {
    exists|j: int| 0 <= j < n && #[trigger] cell(s, mr + j / 3, mc + j % 3) == Some(d)
}

/// Digit `d` appears somewhere in the 3x3 box containing `(r, c)`.
pub open spec fn in_box(s: Seq<Option<usize>>, r: int, c: int, d: usize) -> bool {
    in_box_upto(s, 3 * (r / 3), 3 * (c / 3), d, 9)
}

/// Digit `d` may be placed at `(r, c)`: it is a digit and is absent from
/// the row, the column, and the box of that cell.
pub open spec fn candidate(s: Seq<Option<usize>>, r: int, c: int, d: usize) -> bool {
    &&& 1 <= d <= 9
    &&& !in_row(s, r, d)
    &&& !in_col(s, c, d)
    &&& !in_box(s, r, c, d)
}

/// `s` keeps every filled cell of `t`.
pub open spec fn extends(s: Seq<Option<usize>>, t: Seq<Option<usize>>) -> bool {
    forall|i: int| 0 <= i < 81 && #[trigger] t[i] is Some ==> s[i] == t[i]
}

/// Every cell at linear position `p` or later is filled.
pub open spec fn full_from(s: Seq<Option<usize>>, p: int) -> bool {
    forall|i: int| p <= i < 81 ==> #[trigger] s[i] is Some
}

/// Every cell is filled.
pub open spec fn full(s: Seq<Option<usize>>) -> bool {
    full_from(s, 0)
}

/// `s` and `t` agree on every cell before linear position `p`.
pub open spec fn agree_before(s: Seq<Option<usize>>, t: Seq<Option<usize>>, p: int) -> bool {
    forall|i: int| 0 <= i < p ==> #[trigger] s[i] == t[i]
}

/// `s` completes `t` from position `p` on: `s` is well formed and valid,
/// filled from `p` on, equal to `t` before `p`, and keeps `t`'s cells.
pub open spec fn completes_from(s: Seq<Option<usize>>, t: Seq<Option<usize>>, p: int) -> bool {
    &&& s.len() == 81
    &&& board_wf(s)
    &&& valid(s)
    &&& full_from(s, p)
    &&& agree_before(s, t, p)
    &&& extends(s, t)
}

/// Some completion of `t` from position `p` on exists.
pub open spec fn solvable_from(t: Seq<Option<usize>>, p: int) -> bool {
    exists|s: Seq<Option<usize>>| #[trigger] completes_from(s, t, p)
}

/// Some full valid board exists that keeps every filled cell of `t`.
pub open spec fn solvable(t: Seq<Option<usize>>) -> bool {
    solvable_from(t, 0)
}

/// Placing a candidate digit on an empty cell keeps the board valid
/// and well formed.
pub proof fn lemma_place_candidate(s: Seq<Option<usize>>, r: int, c: int, d: usize)
    requires
        board_wf(s),
        valid(s),
        0 <= r < 9,
        0 <= c < 9,
        cell(s, r, c) is None,
        candidate(s, r, c, d),
    ensures
        board_wf(s.update(9 * r + c, Some(d))),
        valid(s.update(9 * r + c, Some(d))),
{
    let s2 = s.update(9 * r + c, Some(d));
    assert forall|r1: int, c1: int, r2: int, c2: int|
        #![trigger cell(s2, r1, c1), cell(s2, r2, c2)]
        0 <= r1 < 9 && 0 <= c1 < 9 && 0 <= r2 < 9 && 0 <= c2 < 9
            && peers(r1, c1, r2, c2) && cell(s2, r1, c1) is Some
        implies cell(s2, r1, c1) != cell(s2, r2, c2) by {
        if cell(s2, r1, c1) == cell(s2, r2, c2) {
            if r1 == r && c1 == c {
                // the other end of the pair is an old cell holding d
                assert(cell(s, r2, c2) == Some(d));
                if r2 == r1 {
                    assert(in_row(s, r, d));
                } else if c2 == c1 {
                    assert(in_col(s, c, d));
                } else {
                    let j = 3 * (r2 % 3) + c2 % 3;
                    assert(cell(s, 3 * (r / 3) + j / 3, 3 * (c / 3) + j % 3) == Some(d));
                    assert(in_box(s, r, c, d));
                }
            } else if r2 == r && c2 == c {
                assert(cell(s, r1, c1) == Some(d));
                if r1 == r2 {
                    assert(in_row(s, r, d));
                } else if c1 == c2 {
                    assert(in_col(s, c, d));
                } else {
                    let j = 3 * (r1 % 3) + c1 % 3;
                    assert(cell(s, 3 * (r / 3) + j / 3, 3 * (c / 3) + j % 3) == Some(d));
                    assert(in_box(s, r, c, d));
                }
            } else {
                // an old pair: contradicts validity of s
                assert(cell(s, r1, c1) == cell(s2, r1, c1));
                assert(cell(s, r2, c2) == cell(s2, r2, c2));
            }
        }
    }
}

/// In a completion of `t`, the digit written at an empty cell of `t` is a
/// candidate of `t` at that cell.
pub proof fn lemma_completion_digit_is_candidate(
    s: Seq<Option<usize>>,
    t: Seq<Option<usize>>,
    r: int,
    c: int,
)
    requires
        board_wf(t),
        completes_from(s, t, 9 * r + c),
        0 <= r < 9,
        0 <= c < 9,
        cell(t, r, c) is None,
    ensures
        cell(s, r, c) is Some,
        candidate(t, r, c, val_of(cell(s, r, c))),
{
    let p = 9 * r + c;
    assert(s[p] is Some);
    let d = val_of(cell(s, r, c));
    assert(cell(s, r, c) == Some(d));
    assert(1 <= d <= 9) by {
        assert(digit_ok(s[p]));
    }
    assert(!in_row(t, r, d)) by {
        if in_row(t, r, d) {
            let c2 = choose|c2: int| 0 <= c2 < 9 && #[trigger] cell(t, r, c2) == Some(d);
            assert(t[9 * r + c2] is Some);
            assert(cell(s, r, c2) == Some(d));
            assert(c2 != c);
            assert(peers(r, c, r, c2));
            assert(cell(s, r, c) != cell(s, r, c2));
        }
    }
    assert(!in_col(t, c, d)) by {
        if in_col(t, c, d) {
            let r2 = choose|r2: int| 0 <= r2 < 9 && #[trigger] cell(t, r2, c) == Some(d);
            assert(t[9 * r2 + c] is Some);
            assert(cell(s, r2, c) == Some(d));
            assert(r2 != r);
            assert(peers(r, c, r2, c));
            assert(cell(s, r, c) != cell(s, r2, c));
        }
    }
    assert(!in_box(t, r, c, d)) by {
        if in_box(t, r, c, d) {
            let mr = 3 * (r / 3);
            let mc = 3 * (c / 3);
            let j = choose|j: int| 0 <= j < 9 && #[trigger] cell(t, mr + j / 3, mc + j % 3) == Some(d);
            let r2 = mr + j / 3;
            let c2 = mc + j % 3;
            assert(0 <= r2 < 9 && 0 <= c2 < 9);
            assert(t[9 * r2 + c2] is Some);
            assert(cell(s, r2, c2) == Some(d));
            assert(r2 / 3 == r / 3 && c2 / 3 == c / 3);
            assert(r2 != r || c2 != c);
            assert(peers(r, c, r2, c2));
            assert(cell(s, r, c) != cell(s, r2, c2));
        }
    }
}

/// A board with a constraint violation among its filled cells has no
/// completion: the violating pair survives into any extension.
pub proof fn lemma_invalid_unsolvable(t: Seq<Option<usize>>)
    requires
        t.len() == 81,
        !valid(t),
    ensures
        !solvable(t),
{
    if solvable(t) {
        let s = choose|s: Seq<Option<usize>>| #[trigger] completes_from(s, t, 0);
        let (r1, c1, r2, c2) = choose|r1: int, c1: int, r2: int, c2: int|
            0 <= r1 < 9 && 0 <= c1 < 9 && 0 <= r2 < 9 && 0 <= c2 < 9
                && peers(r1, c1, r2, c2) && #[trigger] cell(t, r1, c1) is Some
                && cell(t, r1, c1) == #[trigger] cell(t, r2, c2);
        assert(t[9 * r1 + c1] is Some);
        assert(t[9 * r2 + c2] is Some);
        assert(cell(s, r1, c1) == cell(t, r1, c1));
        assert(cell(s, r2, c2) == cell(t, r2, c2));
        assert(cell(s, r1, c1) != cell(s, r2, c2));
    }
}

} // verus!
