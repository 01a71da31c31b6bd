use vstd::prelude::*;
use crate::grid::{
    Sudoku, box_index_of, box_of, row_has, col_has, box_has, lemma_cells_determine_grid,
};

verus! {

/// `v` may go into cell (r, c) of `g`: it is in none of the cell's row,
/// column and box.
pub open spec fn legal(g: Seq<Seq<u8>>, r: int, c: int, v: u8) -> bool {
    !row_has(g, r, v) && !col_has(g, c, v) && !box_has(g, box_of(r, c), v)
}

/// The values among 1..=n that are legal at (r, c), ascending.
pub open spec fn candidates_upto(g: Seq<Seq<u8>>, r: int, c: int, n: int) -> Seq<u8>
    decreases n,
{
    if n <= 0 {
        seq![]
    } else if legal(g, r, c, n as u8) {
        candidates_upto(g, r, c, n - 1).push(n as u8)
    } else {
        candidates_upto(g, r, c, n - 1)
    }
}

/// The values 1..=9 that are legal at (r, c), ascending.
pub open spec fn candidate_values(g: Seq<Seq<u8>>, r: int, c: int) -> Seq<u8> {
    candidates_upto(g, r, c, 9)
}

/// `g` with cell (r, c) set to `v`.
pub open spec fn place(g: Seq<Seq<u8>>, r: int, c: int, v: u8) -> Seq<Seq<u8>> {
    g.update(r, g[r].update(c, v))
}

/// The outcome of the depth-first search on `g` from cell position `p`
/// (row-major, `p = 9 * row + col`): the first empty cell at or after `p`
/// is given each candidate in ascending order, and the first completed grid
/// wins. A grid with no empty cell from `p` on is its own outcome.
pub open spec fn search(g: Seq<Seq<u8>>, p: int) -> Option<Seq<Seq<u8>>>
    decreases 81 - p, 1int, 0int,
{
    if p >= 81 {
        Some(g)
    } else if g[p / 9][p % 9] != 0 {
        search(g, p + 1)
    } else {
        try_candidates(g, p, candidate_values(g, p / 9, p % 9))
    }
}

/// The search after placing each value of `cs` in turn at the empty cell at
/// position `p`: the first outcome found, or none.
pub open spec fn try_candidates(g: Seq<Seq<u8>>, p: int, cs: Seq<u8>) -> Option<Seq<Seq<u8>>>
    decreases 81 - p, 0int, cs.len(),
{
    if cs.len() == 0 || p >= 81 {
        None
    } else {
        match search(place(g, p / 9, p % 9, cs[0]), p + 1) {
            Some(s) => Some(s),
            None => try_candidates(g, p, cs.drop_first()),
        }
    }
}

/// What `solve` returns: the first solution of the search from the first
/// cell, or `None` when the search is exhausted.
pub open spec fn solution(g: Seq<Seq<u8>>) -> Option<Seq<Seq<u8>>> {
    search(g, 0)
}

/// What a call of `solve_sudoku` on `before` may give: the result `res` and
/// the grid `after` it leaves behind.
pub open spec fn solve_outcome(before: Sudoku, res: Option<Sudoku>, after: Sudoku) -> bool {
    &&& after.wf()
    &&& match res {
        Some(s) => solution(before@) == Some(s@) && after == s,
        None => solution(before@) is None && after == before,
    }
}

/// Every candidate is a value 1..=n that is legal at (r, c).
pub proof fn lemma_candidates_legal(g: Seq<Seq<u8>>, r: int, c: int, n: int)
    requires
        n <= 9,
    ensures
        forall|i: int|
            0 <= i < candidates_upto(g, r, c, n).len() ==> {
                let v = #[trigger] candidates_upto(g, r, c, n)[i];
                1 <= v <= n && legal(g, r, c, v)
            },
    decreases n,
{
    if n > 0 {
        lemma_candidates_legal(g, r, c, n - 1);
        let prev = candidates_upto(g, r, c, n - 1);
        assert forall|i: int| 0 <= i < candidates_upto(g, r, c, n).len() implies {
            let v = #[trigger] candidates_upto(g, r, c, n)[i];
            1 <= v <= n && legal(g, r, c, v)
        } by {
            if i < prev.len() {
                assert(candidates_upto(g, r, c, n)[i] == prev[i]);
            }
        }
    }
}

/// The values 1..=9 that may go into cell (row, col), ascending.
pub fn candidates(sudoku: &Sudoku, row: usize, col: usize) -> (cs: Vec<u8>)
    requires
        sudoku.wf(),
        row < 9,
        col < 9,
    ensures
        cs@ == candidate_values(sudoku@, row as int, col as int),
{
    let (b, _k) = box_index_of(row, col);
    let mut possible: Vec<u8> = Vec::new();
    let mut v: u8 = 1;
    while v <= 9
        invariant
            1 <= v <= 10,
            sudoku.wf(),
            row < 9,
            col < 9,
            b == box_of(row as int, col as int),
            possible@ == candidates_upto(sudoku@, row as int, col as int, v - 1),
        decreases 10 - v,
    {
        if !sudoku.row_contains(row, v) && !sudoku.column_contains(col, v) && !sudoku.box_contains(
            b,
            v,
        ) {
            possible.push(v);
        }
        v += 1;
    }
    possible
}

/// Position of the first empty cell at or after `start`, or 81 if none.
fn first_empty(sudoku: &Sudoku, start: usize) -> (p: usize)
    requires
        sudoku.wf(),
        start <= 81,
    ensures
        start <= p <= 81,
        search(sudoku@, start as int) == search(sudoku@, p as int),
        p < 81 ==> sudoku@[(p / 9) as int][(p % 9) as int] == 0,
{
    let mut p = start;
    while p < 81
        invariant
            start <= p <= 81,
            sudoku.wf(),
            search(sudoku@, start as int) == search(sudoku@, p as int),
        decreases 81 - p,
    {
        if sudoku.cell(p / 9, p % 9) == 0 {
            return p;
        }
        p += 1;
    }
    p
}

/// The search from cell position `start` on; cells before `start` are
/// taken as filled.
fn solve_from(sudoku: &mut Sudoku, start: usize) -> (res: Option<Sudoku>)
    requires
        old(sudoku).wf(),
        start <= 81,
    ensures
        final(sudoku).wf(),
        match res {
            Some(s) => search(old(sudoku)@, start as int) == Some(s@) && *final(sudoku) == s,
            None => search(old(sudoku)@, start as int) is None && *final(sudoku) == *old(sudoku),
        },
    decreases 81 - start,
{
    let p = first_empty(sudoku, start);
    if p == 81 {
        return Some(*sudoku);
    }
    let row = p / 9;
    let col = p % 9;
    let possible = candidates(sudoku, row, col);
    let ghost g = sudoku@;
    proof {
        lemma_candidates_legal(g, row as int, col as int, 9);
        assert(search(g, p as int) == try_candidates(g, p as int, possible@));
        assert(possible@.subrange(0, possible@.len() as int) =~= possible@);
    }
    let mut k: usize = 0;
    while k < possible.len()
        invariant
            sudoku.wf(),
            *sudoku == *old(sudoku),
            g == sudoku@,
            start <= p < 81,
            row == p / 9,
            col == p % 9,
            g[row as int][col as int] == 0,
            k <= possible.len(),
            possible@ == candidate_values(g, row as int, col as int),
            forall|i: int| 0 <= i < possible@.len() ==> 1 <= #[trigger] possible@[i] <= 9,
            search(g, start as int) == try_candidates(
                g,
                p as int,
                possible@.subrange(k as int, possible@.len() as int),
            ),
        decreases possible.len() - k,
    {
        let v = possible[k];
        let ghost rest = possible@.subrange(k as int, possible@.len() as int);
        assert(rest.drop_first() =~= possible@.subrange(k + 1, possible@.len() as int));
        sudoku.assign(row, col, v);
        assert(sudoku@ == place(g, (p / 9) as int, (p % 9) as int, rest[0]));
        match solve_from(sudoku, p + 1) {
            Some(s) => {
                return Some(s);
            },
            None => {},
        }
        sudoku.assign(row, col, 0);
        proof {
            assert(sudoku@[row as int] =~= g[row as int]);
            assert(sudoku@ =~= g);
            lemma_cells_determine_grid(*sudoku, *old(sudoku));
        }
        k += 1;
    }
    None
}

/// Solves the grid in place by depth-first backtracking: the first empty
/// cell in row-major order takes each legal value in ascending order, and
/// the search recurses, undoing the value when it fails. A grid with no
/// empty cell is returned as it is, without a check of its values.
///
/// On success the grid holds the solution and a copy of it is returned; on
/// failure the grid is left exactly as it was given.
pub fn solve_sudoku(sudoku: &mut Sudoku) -> (res: Option<Sudoku>)
    requires
        old(sudoku).wf(),
    ensures
        solve_outcome(*old(sudoku), res, *final(sudoku)),
{
    solve_from(sudoku, 0)
}

} // verus!
