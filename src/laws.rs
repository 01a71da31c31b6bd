use vstd::prelude::*;
use vstd::set_lib::{lemma_int_range, lemma_subset_equality, set_int_range};
use crate::grid::{
    Sudoku, box_col, box_of, box_row, box_cells, column_cells, consistent, distinct_filled,
    lemma_box_bijection, lemma_cells_determine_grid,
};
use crate::solver::{
    candidate_values, lemma_candidates_legal, legal, place, search, solution, solve_outcome,
    try_candidates,
};

verus! {

/// `g` is 9 rows of 9 values in 0..=9.
pub open spec fn shaped(g: Seq<Seq<u8>>) -> bool {
    &&& g.len() == 9
    &&& forall|r: int| 0 <= r < 9 ==> #[trigger] g[r].len() == 9
    &&& forall|r: int, c: int| 0 <= r < 9 && 0 <= c < 9 ==> #[trigger] g[r][c] <= 9
}

/// Every cell of `g` holds a value in 1..=9.
pub open spec fn complete(g: Seq<Seq<u8>>) -> bool {
    forall|r: int, c: int| 0 <= r < 9 && 0 <= c < 9 ==> 1 <= #[trigger] g[r][c] <= 9
}

/// `v` stands in exactly one of the nine cells of `u`.
pub open spec fn occurs_once(u: Seq<u8>, v: u8) -> bool {
    &&& exists|k: int| 0 <= k < 9 && #[trigger] u[k] == v
    &&& forall|k1: int, k2: int|
        0 <= k1 < 9 && 0 <= k2 < 9 && #[trigger] u[k1] == v && #[trigger] u[k2] == v ==> k1 == k2
}

/// `u` holds each of 1..=9 exactly once.
pub open spec fn each_once(u: Seq<u8>) -> bool {
    forall|v: u8| 1 <= v <= 9 ==> #[trigger] occurs_once(u, v)
}

/// `g` is a solved grid: no cell is empty and every row, column and box holds
/// each of 1..=9 exactly once.
pub open spec fn valid_solution(g: Seq<Seq<u8>>) -> bool {
    &&& shaped(g)
    &&& complete(g)
    &&& forall|u: int|
        0 <= u < 9 ==> each_once(#[trigger] g[u]) && each_once(column_cells(g, u)) && each_once(
            box_cells(g, u),
        )
}

/// Cells before position `p` in row-major order are all filled.
spec fn filled_before(g: Seq<Seq<u8>>, p: int) -> bool {
    forall|q: int| 0 <= q < p && q < 81 ==> #[trigger] g[q / 9][q % 9] != 0
}

/// Placing a legal value keeps a consistent grid consistent.
proof fn lemma_place_consistent(g: Seq<Seq<u8>>, r: int, c: int, v: u8)
    requires
        shaped(g),
        consistent(g),
        0 <= r < 9,
        0 <= c < 9,
        1 <= v <= 9,
        legal(g, r, c, v),
    ensures
        shaped(place(g, r, c, v)),
        consistent(place(g, r, c, v)),
{
    lemma_box_bijection();
    let h = place(g, r, c, v);
    assert forall|u: int| 0 <= u < 9 implies distinct_filled(#[trigger] h[u]) && distinct_filled(
        column_cells(h, u),
    ) && distinct_filled(box_cells(h, u)) by {
        assert(distinct_filled(g[u]));
        assert(distinct_filled(column_cells(g, u)));
        assert(distinct_filled(box_cells(g, u)));
        let hc = column_cells(h, u);
        let gc = column_cells(g, u);
        assert forall|k1: int, k2: int|
            0 <= k1 < 9 && 0 <= k2 < 9 && k1 != k2 && #[trigger] hc[k1] != 0 implies hc[k1]
            != #[trigger] hc[k2] by {
            if u == c && k1 == r {
                assert(hc[k2] == g[k2][c]);
            } else if u == c && k2 == r {
                assert(hc[k1] == g[k1][c]);
            } else {
                assert(hc[k1] == gc[k1]);
                assert(hc[k2] == gc[k2]);
            }
        }
        let hb = box_cells(h, u);
        let gb = box_cells(g, u);
        assert forall|k1: int, k2: int|
            0 <= k1 < 9 && 0 <= k2 < 9 && k1 != k2 && #[trigger] hb[k1] != 0 implies hb[k1]
            != #[trigger] hb[k2] by {
            let at1 = box_row(u, k1) == r && box_col(u, k1) == c;
            let at2 = box_row(u, k2) == r && box_col(u, k2) == c;
            if at1 {
                assert(box_of(r, c) == u);
                assert(!at2);
                assert(hb[k2] == g[box_row(u, k2)][box_col(u, k2)]);
            } else if at2 {
                assert(box_of(r, c) == u);
                assert(hb[k1] == g[box_row(u, k1)][box_col(u, k1)]);
            } else {
                assert(hb[k1] == gb[k1]);
                assert(hb[k2] == gb[k2]);
            }
        }
        if u == r {
            assert forall|k1: int, k2: int|
                0 <= k1 < 9 && 0 <= k2 < 9 && k1 != k2 && #[trigger] h[u][k1] != 0 implies h[u][k1]
                != #[trigger] h[u][k2] by {
                if k1 != c && k2 != c {
                    assert(g[u][k1] != g[u][k2]);
                }
            }
        }
    }
}

/// Every grid the search returns from a consistent grid is complete and
/// consistent.
proof fn lemma_search_sound(g: Seq<Seq<u8>>, p: int)
    requires
        shaped(g),
        consistent(g),
        0 <= p <= 81,
        filled_before(g, p),
    ensures
        search(g, p) matches Some(s) ==> shaped(s) && consistent(s) && complete(s),
    decreases 81 - p, 1int, 0int,
{
    if p >= 81 {
        assert forall|r: int, c: int| 0 <= r < 9 && 0 <= c < 9 implies 1 <= #[trigger] g[r][c]
            <= 9 by {
            let q = 9 * r + c;
            assert(q / 9 == r && q % 9 == c);
            assert(g[q / 9][q % 9] != 0);
        }
    } else if g[p / 9][p % 9] != 0 {
        lemma_search_sound(g, p + 1);
    } else {
        lemma_candidates_legal(g, p / 9, p % 9, 9);
        lemma_try_sound(g, p, candidate_values(g, p / 9, p % 9));
    }
}

proof fn lemma_try_sound(g: Seq<Seq<u8>>, p: int, cs: Seq<u8>)
    requires
        shaped(g),
        consistent(g),
        0 <= p < 81,
        filled_before(g, p),
        g[p / 9][p % 9] == 0,
        forall|i: int|
            0 <= i < cs.len() ==> 1 <= #[trigger] cs[i] <= 9 && legal(g, p / 9, p % 9, cs[i]),
    ensures
        try_candidates(g, p, cs) matches Some(s) ==> shaped(s) && consistent(s) && complete(s),
    decreases 81 - p, 0int, cs.len(),
{
    if cs.len() > 0 {
        let h = place(g, p / 9, p % 9, cs[0]);
        lemma_place_consistent(g, p / 9, p % 9, cs[0]);
        assert forall|q: int| 0 <= q < p + 1 && q < 81 implies #[trigger] h[q / 9][q % 9] != 0 by {
            if q < p {
                assert(g[q / 9][q % 9] != 0);
                assert(q / 9 != p / 9 || q % 9 != p % 9);
            }
        }
        lemma_search_sound(h, p + 1);
        assert forall|i: int| 0 <= i < cs.drop_first().len() implies 1 <= #[trigger] cs.drop_first()[i]
            <= 9 && legal(g, p / 9, p % 9, cs.drop_first()[i]) by {
            assert(cs.drop_first()[i] == cs[i + 1]);
        }
        lemma_try_sound(g, p, cs.drop_first());
    }
}

/// Nine distinct values from 1..=9 are each of 1..=9 once.
proof fn lemma_each_once(u: Seq<u8>)
    requires
        u.len() == 9,
        forall|k: int| 0 <= k < 9 ==> 1 <= #[trigger] u[k] <= 9,
        distinct_filled(u),
    ensures
        each_once(u),
{
    let w = u.map_values(|x: u8| x as int);
    assert(w.no_duplicates()) by {
        assert forall|i: int, j: int| 0 <= i < 9 && 0 <= j < 9 && i != j implies #[trigger] w[i]
            != #[trigger] w[j] by {
            assert(u[i] != 0);
        }
    }
    w.unique_seq_to_set();
    lemma_int_range(1, 10);
    assert(w.to_set().subset_of(set_int_range(1, 10))) by {
        assert forall|x: int| #[trigger] w.to_set().contains(x) implies set_int_range(
            1,
            10,
        ).contains(x) by {
            let k = choose|k: int| 0 <= k < w.len() && w[k] == x;
            assert(w[k] == u[k] as int);
        }
    }
    lemma_subset_equality(w.to_set(), set_int_range(1, 10));
    assert forall|v: u8| 1 <= v <= 9 implies #[trigger] occurs_once(u, v) by {
        assert(set_int_range(1, 10).contains(v as int));
        assert(w.to_set().contains(v as int));
        let k = choose|k: int| 0 <= k < w.len() && w[k] == v as int;
        assert(u[k] == v);
    }
}

/// Validity of the solution: from a well-formed grid whose filled cells
/// already respect the rules, a solved grid has no empty cell and every row,
/// column and box holds each of 1..=9 exactly once.
pub proof fn lemma_solution_is_valid(sudoku: Sudoku)
    requires
        sudoku.wf(),
        consistent(sudoku@),
    ensures
        solution(sudoku@) matches Some(s) ==> valid_solution(s),
{
    let g = sudoku@;
    lemma_search_sound(g, 0);
    if let Some(s) = solution(g) {
        lemma_box_bijection();
        assert forall|u: int| 0 <= u < 9 implies each_once(#[trigger] s[u]) && each_once(
            column_cells(s, u),
        ) && each_once(box_cells(s, u)) by {
            lemma_each_once(s[u]);
            lemma_each_once(column_cells(s, u));
            assert forall|k: int| 0 <= k < 9 implies 1 <= #[trigger] box_cells(s, u)[k] <= 9 by {
                assert(0 <= box_row(u, k) < 9 && 0 <= box_col(u, k) < 9);
            }
            lemma_each_once(box_cells(s, u));
        }
    }
}

/// Determinism: two calls of `solve_sudoku` on the same grid give the same
/// result and leave the same grid behind.
pub proof fn lemma_solve_deterministic(
    before: Sudoku,
    res1: Option<Sudoku>,
    after1: Sudoku,
    res2: Option<Sudoku>,
    after2: Sudoku,
)
    requires
        before.wf(),
        solve_outcome(before, res1, after1),
        solve_outcome(before, res2, after2),
    ensures
        res1 == res2,
        after1 == after2,
{
    if let (Some(s1), Some(s2)) = (res1, res2) {
        lemma_cells_determine_grid(s1, s2);
    }
}

/// Undo: writing a value into an empty cell and then writing 0 back gives
/// the grid as it was before, in all three views.
pub proof fn lemma_assign_then_undo(
    start: Sudoku,
    tried: Sudoku,
    undone: Sudoku,
    row: int,
    col: int,
    v: u8,
)
    requires
        start.wf(),
        tried.wf(),
        undone.wf(),
        0 <= row < 9,
        0 <= col < 9,
        start@[row][col] == 0,
        tried@ == place(start@, row, col, v),
        undone@ == place(tried@, row, col, 0),
    ensures
        undone == start,
{
    assert(undone@[row] =~= start@[row]);
    assert(undone@ =~= start@);
    lemma_cells_determine_grid(undone, start);
}

} // verus!
