//! The permutation generator: random row/column permutations that keep
//! the 3x3 block structure, a random relabelling of the digits, and
//! `permute`, which builds a freshly rearranged board.

use vstd::prelude::*;
use rand::seq::SliceRandom;
use crate::board::Board;
use crate::rules::{board_wf, cell, completes_from, digit_ok, full, peers, solvable, valid};

verus! {

broadcast use {
    vstd::seq_lib::group_to_multiset_ensures,
    vstd::multiset::group_multiset_axioms,
};

/// `p` lists each value of `[lo, lo + n)` exactly once.
pub open spec fn is_perm_of(p: Seq<usize>, lo: usize, n: int) -> bool {
    &&& p.len() == n
    &&& forall|i: int| 0 <= i < n ==> lo <= #[trigger] p[i] < lo + n
    &&& forall|i: int, j: int| #![trigger p[i], p[j]] 0 <= i < j < n ==> p[i] != p[j]
    &&& forall|v: usize| lo <= v < lo + n ==> #[trigger] p.contains(v)
}

/// A line permutation: a permutation of the row (or column) indices
/// `[0, 9)` that keeps block membership, i.e. two lines end up in the
/// same block of three exactly when they started in the same block.
pub open spec fn is_line_perm(p: Seq<usize>) -> bool {
    &&& is_perm_of(p, 0, 9)
    &&& forall|i: int, j: int| #![trigger p[i], p[j]]
        0 <= i < 9 && 0 <= j < 9 ==> ((p[i] / 3 == p[j] / 3) <==> (i / 3 == j / 3))
}

/// Relabels a cell: an empty cell stays empty, digit `d` becomes
/// `vp[d - 1]`.
pub open spec fn map_digit(vp: Seq<usize>, o: Option<usize>) -> Option<usize> {
    match o {
        None => None,
        Some(d) => Some(vp[d as int - 1]),
    }
}

/// How `permute`'s result relates to its input: for some pair of line
/// permutations and some digit permutation, the cell `(i, j)` of `b` is
/// moved to `(rp[i], cp[j])` in `b2` with its digit relabelled by `vp`.
pub open spec fn permuted_by(
    b: Seq<Option<usize>>,
    b2: Seq<Option<usize>>,
    rp: Seq<usize>,
    cp: Seq<usize>,
    vp: Seq<usize>,
) -> bool {
    &&& is_line_perm(rp)
    &&& is_line_perm(cp)
    &&& is_perm_of(vp, 1, 9)
    &&& b2.len() == 81
    &&& forall|i: int, j: int|
        0 <= i < 9 && 0 <= j < 9
            ==> cell(b2, rp[i] as int, cp[j] as int) == map_digit(vp, #[trigger] cell(b, i, j))
}

/// The destination map `(i, j) |-> (rp[i], cp[j])` reaches `(r, c)`.
pub open spec fn covers(rp: Seq<usize>, cp: Seq<usize>, r: int, c: int) -> bool {
    exists|i: int, j: int| #![trigger rp[i], cp[j]]
        0 <= i < 9 && 0 <= j < 9 && rp[i] == r && cp[j] == c
}

#[verifier::external_type_specification]
#[verifier::external_body]
pub struct ExThreadRng(rand::rngs::ThreadRng);

/// Relies on rand::thread_rng: a handle to the thread-local random
/// generator. Nothing is assumed about the numbers it yields.
#[verifier::external_body]
fn fresh_rng() -> rand::rngs::ThreadRng {
    rand::thread_rng()
}

/// Relies on rand::seq::SliceRandom::shuffle: a Fisher-Yates shuffle
/// reorders the slice in place by swaps, so afterwards the vector holds
/// the same elements with the same multiplicities, whatever order the
/// generator produced.
#[verifier::external_body]
fn shuffle_vec(v: &mut Vec<usize>, rng: &mut rand::rngs::ThreadRng)
    ensures
        final(v)@.to_multiset() == old(v)@.to_multiset(),
        final(v)@.len() == old(v)@.len(),
{
    v.shuffle(rng)
}

/// A sequence of length `n` in which each value of `[lo, lo + n)` occurs
/// exactly once is a permutation of that range.
proof fn lemma_counts_give_perm(p: Seq<usize>, lo: usize, n: int)
    requires
        n >= 0,
        lo + n <= usize::MAX,
        p.len() == n,
        forall|v: usize| #[trigger] p.to_multiset().count(v)
            == (if lo <= v < lo + n { 1nat } else { 0nat }),
    ensures
        is_perm_of(p, lo, n),
{
    assert forall|v: usize| lo <= v < lo + n implies #[trigger] p.contains(v) by {
        assert(p.to_multiset().count(v) > 0);
    }
    assert forall|i: int| 0 <= i < n implies lo <= #[trigger] p[i] < lo + n by {
        assert(p.contains(p[i]));
        assert(p.to_multiset().count(p[i]) > 0);
    }
    assert(forall|x: usize| p.to_multiset().contains(x) ==> p.to_multiset().count(x) == 1);
    p.lemma_multiset_has_no_duplicates_conv();
}

/// The values `lo, lo + 1, ..., lo + n - 1`, in order.
fn iota(lo: usize, n: usize) -> (r: Vec<usize>)
    requires
        lo + n <= 100,
    ensures
        r@.len() == n,
        forall|v: usize| #[trigger] r@.to_multiset().count(v)
            == (if lo <= v < lo + n { 1nat } else { 0nat }),
{
    let mut r: Vec<usize> = Vec::new();
    proof {
        assert(r@ =~= Seq::<usize>::empty());
        assert forall|v: usize| #[trigger] r@.to_multiset().count(v) == 0nat by {
            assert(!r@.contains(v));
        }
    }
    let mut i: usize = 0;
    while i < n
        invariant
            i <= n,
            lo + n <= 100,
            r@.len() == i,
            forall|v: usize| #[trigger] r@.to_multiset().count(v)
                == (if lo <= v < lo + i { 1nat } else { 0nat }),
        decreases n - i,
    {
        let ghost r0 = r@;
        r.push(lo + i);
        proof {
            assert(r@ == r0.push((lo + i) as usize));
            assert(r@.to_multiset() =~= r0.to_multiset().insert((lo + i) as usize));
        }
        i = i + 1;
    }
    r
}

/// A uniformly shuffled listing of `[lo, lo + n)`.
fn random_perm(lo: usize, n: usize, rng: &mut rand::rngs::ThreadRng) -> (r: Vec<usize>)
    requires
        lo + n <= 100,
    ensures
        is_perm_of(r@, lo, n as int),
{
    let mut r = iota(lo, n);
    shuffle_vec(&mut r, rng);
    proof {
        lemma_counts_give_perm(r@, lo, n as int);
    }
    r
}

impl Board {
    /// A random permutation of the line indices `[0, 9)` that keeps the
    /// block structure: the three blocks of lines are shuffled as wholes,
    /// and the three lines inside each block are shuffled independently.
    pub fn line_permutation() -> (r: Vec<usize>)
        ensures
            is_line_perm(r@),
    {
        let mut rng = fresh_rng();
        let major = random_perm(0, 3, &mut rng);
        let mut r: Vec<usize> = Vec::new();
        let mut m: usize = 0;
        while m < 3
            invariant
                is_perm_of(major@, 0, 3),
                m <= 3,
                r@.len() == 3 * m,
                forall|idx: int| 0 <= idx < 3 * m
                    ==> #[trigger] r@[idx] < 9 && r@[idx] / 3 == major@[idx / 3],
                forall|b: int, k1: int, k2: int| #![trigger r@[3 * b + k1], r@[3 * b + k2]]
                    0 <= b < m && 0 <= k1 < k2 < 3 ==> r@[3 * b + k1] != r@[3 * b + k2],
            decreases 3 - m,
        {
            let minor = random_perm(0, 3, &mut rng);
            let base = 3 * major[m];
            let ghost r0 = r@;
            r.push(base + minor[0]);
            r.push(base + minor[1]);
            r.push(base + minor[2]);
            proof {
                assert(r@.len() == 3 * m + 3);
                assert(forall|k: int| 0 <= k < 3 ==> #[trigger] r@[3 * m + k]
                    == base + minor@[k]);
                assert(forall|idx: int| 0 <= idx < 3 * m ==> #[trigger] r@[idx] == r0[idx]);
            }
            m = m + 1;
        }
        proof {
            assert forall|v: usize| v < 9 implies #[trigger] r@.contains(v) by {
                let q = v as int / 3;
                assert(major@.contains((v / 3) as usize));
                let mb = choose|mb: int| 0 <= mb < 3 && major@[mb] == v / 3;
                assert(r@[3 * mb + 0] / 3 == q && r@[3 * mb + 1] / 3 == q && r@[3 * mb + 2] / 3 == q);
                assert(r@[3 * mb + 0] != r@[3 * mb + 1] && r@[3 * mb + 0] != r@[3 * mb + 2]
                    && r@[3 * mb + 1] != r@[3 * mb + 2]);
                assert(r@[3 * mb + 0] == v || r@[3 * mb + 1] == v || r@[3 * mb + 2] == v);
            }
            assert forall|i: int, j: int| #![trigger r@[i], r@[j]] 0 <= i < j < 9
                implies r@[i] != r@[j] by {
                if i / 3 == j / 3 {
                    let b = i / 3;
                    let k1 = i - 3 * b;
                    let k2 = j - 3 * b;
                    assert(r@[3 * b + k1] != r@[3 * b + k2]);
                } else {
                    assert(major@[i / 3] != major@[j / 3]);
                }
            }
            assert forall|i: int, j: int| #![trigger r@[i], r@[j]] 0 <= i < 9 && 0 <= j < 9
                implies ((r@[i] / 3 == r@[j] / 3) <==> (i / 3 == j / 3)) by {
                if i / 3 != j / 3 {
                    assert(major@[i / 3] != major@[j / 3]);
                }
            }
        }
        r
    }

    /// A uniformly random permutation of the digits `[1, 9]`.
    pub fn value_permutation() -> (r: Vec<usize>)
        ensures
            is_perm_of(r@, 1, 9),
    {
        let mut rng = fresh_rng();
        random_perm(1, 9, &mut rng)
    }

    /// A random rearrangement of the board that keeps solvability: rows
    /// and columns move by fresh line permutations, digits are relabelled
    /// by a fresh digit permutation, and the source board is untouched.
    pub fn permute(&self) -> (r: Board)
        requires
            self.wf(),
        ensures
            r.wf(),
            exists|rp: Seq<usize>, cp: Seq<usize>, vp: Seq<usize>|
                #[trigger] permuted_by(self@, r@, rp, cp, vp),
            valid(self@) ==> valid(r@),
            full(self@) ==> full(r@),
            valid(self@) && full(self@) ==> solvable(r@),
    {
        let rowp = Board::line_permutation();
        let colp = Board::line_permutation();
        let valp = Board::value_permutation();
        let mut grid: Vec<Option<usize>> = Vec::new();
        let mut t: usize = 0;
        while t < 81
            invariant
                t <= 81,
                grid@.len() == t,
                forall|d: int| 0 <= d < t ==> (#[trigger] grid@[d]) is None,
            decreases 81 - t,
        {
            grid.push(None);
            t = t + 1;
        }
        let mut i: usize = 0;
        while i < 9
            invariant
                self.wf(),
                is_line_perm(rowp@),
                is_line_perm(colp@),
                is_perm_of(valp@, 1, 9),
                i <= 9,
                grid@.len() == 81,
                forall|i2: int, j2: int| #![trigger rowp@[i2], colp@[j2]]
                    0 <= i2 < 9 && 0 <= j2 < 9
                        ==> grid@[9 * rowp@[i2] + colp@[j2]]
                            == (if i2 < i { map_digit(valp@, cell(self@, i2, j2)) } else {
                                None::<usize>
                            }),
            decreases 9 - i,
        {
            let mut j: usize = 0;
            while j < 9
                invariant
                    self.wf(),
                    is_line_perm(rowp@),
                    is_line_perm(colp@),
                    is_perm_of(valp@, 1, 9),
                    i < 9,
                    j <= 9,
                    grid@.len() == 81,
                    forall|i2: int, j2: int| #![trigger rowp@[i2], colp@[j2]]
                        0 <= i2 < 9 && 0 <= j2 < 9
                            ==> grid@[9 * rowp@[i2] + colp@[j2]]
                                == (if i2 < i || (i2 == i && j2 < j) {
                                    map_digit(valp@, cell(self@, i2, j2))
                                } else {
                                    None::<usize>
                                }),
                decreases 9 - j,
            {
                let v = self.get(i, j);
                let ghost g0 = grid@;
                if let Some(d) = v {
                    let dest = 9 * rowp[i] + colp[j];
                    grid[dest] = Some(valp[d - 1]);
                }
                proof {
                    assert forall|i2: int, j2: int| #![trigger rowp@[i2], colp@[j2]]
                        0 <= i2 < 9 && 0 <= j2 < 9
                        implies grid@[9 * rowp@[i2] + colp@[j2]]
                            == (if i2 < i || (i2 == i && j2 < j + 1) {
                                map_digit(valp@, cell(self@, i2, j2))
                            } else {
                                None::<usize>
                            }) by {
                        if i2 == i && j2 == j {
                        } else {
                            assert(rowp@[i2] != rowp@[i as int] || colp@[j2] != colp@[j as int]);
                            assert(9 * rowp@[i2] + colp@[j2] != 9 * rowp@[i as int] + colp@[j as int]);
                            assert(grid@[9 * rowp@[i2] + colp@[j2]] == g0[9 * rowp@[i2] + colp@[j2]]);
                        }
                    }
                }
                j = j + 1;
            }
            i = i + 1;
        }
        proof {
            assert(permuted_by(self@, grid@, rowp@, colp@, valp@));
            lemma_permute_preserves_validity(self@, grid@, rowp@, colp@, valp@);
        }
        let r = Board::from_cells(grid);
        proof {
            assert(permuted_by(self@, r@, rowp@, colp@, valp@));
        }
        r
    }
}

/// Bijective coverage of `permute`'s writes: with line permutations for
/// the rows and the columns, the destination map `(i, j) |-> (rp[i],
/// cp[j])` sends distinct source cells to distinct destination cells and
/// reaches all 81 destinations, so each destination is written exactly
/// once.
pub proof fn lemma_destinations_bijective(rp: Seq<usize>, cp: Seq<usize>)
    requires
        is_line_perm(rp),
        is_line_perm(cp),
    ensures
        forall|i1: int, j1: int, i2: int, j2: int|
            #![trigger rp[i1], cp[j1], rp[i2], cp[j2]]
            0 <= i1 < 9 && 0 <= j1 < 9 && 0 <= i2 < 9 && 0 <= j2 < 9 && (i1 != i2 || j1 != j2)
                ==> (rp[i1] != rp[i2] || cp[j1] != cp[j2]),
        forall|r: int, c: int| 0 <= r < 9 && 0 <= c < 9 ==> #[trigger] covers(rp, cp, r, c),
{
    assert forall|r: int, c: int| 0 <= r < 9 && 0 <= c < 9 implies #[trigger] covers(rp, cp, r, c) by {
        assert(rp.contains(r as usize));
        assert(cp.contains(c as usize));
        let i = choose|i: int| 0 <= i < 9 && rp[i] == r as usize;
        let j = choose|j: int| 0 <= j < 9 && cp[j] == c as usize;
        assert(0 <= i < 9 && 0 <= j < 9 && rp[i] == r && cp[j] == c);
    }
}

/// Validity preservation: a board that `permute` built from `b` is well
/// formed, is valid whenever `b` is, is full whenever `b` is, and is
/// therefore solvable whenever `b` is a solved board.
pub proof fn lemma_permute_preserves_validity(
    b: Seq<Option<usize>>,
    b2: Seq<Option<usize>>,
    rp: Seq<usize>,
    cp: Seq<usize>,
    vp: Seq<usize>,
)
    requires
        board_wf(b),
        permuted_by(b, b2, rp, cp, vp),
    ensures
        board_wf(b2),
        valid(b) ==> valid(b2),
        full(b) ==> full(b2),
        valid(b) && full(b) ==> solvable(b2),
{
    lemma_destinations_bijective(rp, cp);
    assert(board_wf(b2)) by {
        assert forall|k: int| 0 <= k < 81 implies digit_ok(#[trigger] b2[k]) by {
            let r = k / 9;
            let c = k % 9;
            assert(covers(rp, cp, r, c));
            let (i, j) = choose|i: int, j: int| #![trigger rp[i], cp[j]]
                0 <= i < 9 && 0 <= j < 9 && rp[i] == r && cp[j] == c;
            assert(cell(b2, r, c) == map_digit(vp, cell(b, i, j)));
            assert(digit_ok(b[9 * i + j]));
        }
    }
    if valid(b) {
        assert forall|r1: int, c1: int, r2: int, c2: int|
            #![trigger cell(b2, r1, c1), cell(b2, r2, c2)]
            0 <= r1 < 9 && 0 <= c1 < 9 && 0 <= r2 < 9 && 0 <= c2 < 9
                && peers(r1, c1, r2, c2) && cell(b2, r1, c1) is Some
            implies cell(b2, r1, c1) != cell(b2, r2, c2) by {
            if cell(b2, r1, c1) == cell(b2, r2, c2) {
                assert(covers(rp, cp, r1, c1));
                assert(covers(rp, cp, r2, c2));
                let (i1, j1) = choose|i1: int, j1: int| #![trigger rp[i1], cp[j1]]
                    0 <= i1 < 9 && 0 <= j1 < 9 && rp[i1] == r1 && cp[j1] == c1;
                let (i2, j2) = choose|i2: int, j2: int| #![trigger rp[i2], cp[j2]]
                    0 <= i2 < 9 && 0 <= j2 < 9 && rp[i2] == r2 && cp[j2] == c2;
                assert(cell(b2, r1, c1) == map_digit(vp, cell(b, i1, j1)));
                assert(cell(b2, r2, c2) == map_digit(vp, cell(b, i2, j2)));
                let d1 = cell(b, i1, j1)->0;
                let d2 = cell(b, i2, j2)->0;
                assert(cell(b, i1, j1) == Some(d1) && cell(b, i2, j2) == Some(d2));
                assert(digit_ok(b[9 * i1 + j1]) && digit_ok(b[9 * i2 + j2]));
                assert(vp[d1 as int - 1] == vp[d2 as int - 1]);
                assert(d1 == d2) by {
                    if d1 != d2 {
                        assert(vp[d1 as int - 1] != vp[d2 as int - 1]);
                    }
                }
                assert(i1 != i2 || j1 != j2);
                assert(peers(i1, j1, i2, j2)) by {
                    if r1 == r2 {
                        assert(rp[i1] == rp[i2]);
                        assert(i1 == i2);
                    } else if c1 == c2 {
                        assert(cp[j1] == cp[j2]);
                        assert(j1 == j2);
                    } else {
                        assert(rp[i1] / 3 == rp[i2] / 3 && cp[j1] / 3 == cp[j2] / 3);
                        assert(i1 / 3 == i2 / 3 && j1 / 3 == j2 / 3);
                    }
                }
                assert(cell(b, i1, j1) != cell(b, i2, j2));
            }
        }
    }
    if full(b) {
        assert forall|k: int| 0 <= k < 81 implies (#[trigger] b2[k]) is Some by {
            let r = k / 9;
            let c = k % 9;
            assert(covers(rp, cp, r, c));
            let (i, j) = choose|i: int, j: int| #![trigger rp[i], cp[j]]
                0 <= i < 9 && 0 <= j < 9 && rp[i] == r && cp[j] == c;
            assert(cell(b2, r, c) == map_digit(vp, cell(b, i, j)));
            assert(b[9 * i + j] is Some);
        }
    }
    if valid(b) && full(b) {
        assert(completes_from(b2, b2, 0));
    }
}

} // verus!
