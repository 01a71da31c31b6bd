use vstd::prelude::*;

verus! {

/// Box holding cell (r, c).
pub open spec fn box_of(r: int, c: int) -> int {
    (r / 3) * 3 + c / 3
}

/// Position of cell (r, c) inside its box.
pub open spec fn slot_of(r: int, c: int) -> int {
    (r % 3) * 3 + c % 3
}

/// Row of the cell at position `k` of box `b`.
pub open spec fn box_row(b: int, k: int) -> int {
    (b / 3) * 3 + k / 3
}

/// Column of the cell at position `k` of box `b`.
pub open spec fn box_col(b: int, k: int) -> int {
    (b % 3) * 3 + k % 3
}

/// A 9x9 table as a sequence of its nine rows.
pub open spec fn table(a: [[u8; 9]; 9]) -> Seq<Seq<u8>> {
    Seq::new(9, |i: int| a[i]@)
}

/// `v` stands in row `r` of `g`.
pub open spec fn row_has(g: Seq<Seq<u8>>, r: int, v: u8) -> bool {
    exists|k: int| 0 <= k < 9 && #[trigger] g[r][k] == v
}

/// `v` stands in column `c` of `g`.
pub open spec fn col_has(g: Seq<Seq<u8>>, c: int, v: u8) -> bool {
    exists|k: int| 0 <= k < 9 && #[trigger] g[k][c] == v
}

/// `v` stands in box `b` of `g`.
pub open spec fn box_has(g: Seq<Seq<u8>>, b: int, v: u8) -> bool {
    exists|k: int| 0 <= k < 9 && #[trigger] g[box_row(b, k)][box_col(b, k)] == v
}

/// The cells of column `c` of `g`, top to bottom.
pub open spec fn column_cells(g: Seq<Seq<u8>>, c: int) -> Seq<u8> {
    Seq::new(9, |k: int| g[k][c])
}

/// The cells of box `b` of `g`, by position in the box.
pub open spec fn box_cells(g: Seq<Seq<u8>>, b: int) -> Seq<u8> {
    Seq::new(9, |k: int| g[box_row(b, k)][box_col(b, k)])
}

/// No filled cell of `u` repeats a value found elsewhere in `u`.
pub open spec fn distinct_filled(u: Seq<u8>) -> bool {
    forall|k1: int, k2: int|
        0 <= k1 < u.len() && 0 <= k2 < u.len() && k1 != k2 && #[trigger] u[k1] != 0 ==> u[k1]
            != #[trigger] u[k2]
}

/// No row, column or box of `g` holds a filled value twice.
pub open spec fn consistent(g: Seq<Seq<u8>>) -> bool {
    forall|u: int|
        0 <= u < 9 ==> distinct_filled(#[trigger] g[u]) && distinct_filled(column_cells(g, u))
            && distinct_filled(box_cells(g, u))
}

/// A 9x9 grid of values 0..=9 (0: empty), kept in three aligned views.
#[derive(Clone, Copy)]
pub struct Sudoku {
    columns: [[u8; 9]; 9],
    rows: [[u8; 9]; 9],
    squares: [[u8; 9]; 9],
}

impl Sudoku {
    /// The cells, row by row.
    pub closed spec fn view(&self) -> Seq<Seq<u8>> {
        table(self.rows)
    }

    /// The column view: `column_view()[c][r]` is cell (r, c).
    pub closed spec fn column_view(&self) -> Seq<Seq<u8>> {
        table(self.columns)
    }

    /// The box view: `box_view()[b][k]` is cell `k` of box `b`.
    pub closed spec fn box_view(&self) -> Seq<Seq<u8>> {
        table(self.squares)
    }

    /// The three views agree on every cell and every value is in 0..=9.
    pub open spec fn wf(&self) -> bool {
        let g = self@;
        let cols = self.column_view();
        let boxes = self.box_view();
        &&& g.len() == 9 && cols.len() == 9 && boxes.len() == 9
        &&& forall|i: int|
            0 <= i < 9 ==> #[trigger] g[i].len() == 9 && cols[i].len() == 9 && boxes[i].len() == 9
        &&& forall|r: int, c: int| 0 <= r < 9 && 0 <= c < 9 ==> #[trigger] g[r][c] <= 9
        &&& forall|r: int, c: int| 0 <= r < 9 && 0 <= c < 9 ==> #[trigger] cols[c][r] == g[r][c]
        &&& forall|r: int, c: int|
            0 <= r < 9 && 0 <= c < 9 ==> #[trigger] boxes[box_of(r, c)][slot_of(r, c)] == g[r][c]
    }

    /// An empty grid: every cell 0.
    pub fn new() -> (s: Sudoku)
        ensures
            s.wf(),
            forall|r: int, c: int| 0 <= r < 9 && 0 <= c < 9 ==> #[trigger] s@[r][c] == 0,
    {
        let s = Sudoku { columns: [[0u8; 9]; 9], rows: [[0u8; 9]; 9], squares: [[0u8; 9]; 9] };
        proof {
            lemma_box_bijection();
        }
        s
    }

    /// A grid whose cells are `values`, row by row, with all three views filled.
    pub fn from_rows(values: &[[u8; 9]; 9]) -> (s: Sudoku)
        requires
            forall|r: int, c: int| 0 <= r < 9 && 0 <= c < 9 ==> #[trigger] values[r][c] <= 9,
        ensures
            s.wf(),
            s@ == table(*values),
    {
        let mut s = Sudoku::new();
        let mut i: usize = 0;
        while i < 81
            invariant
                i <= 81,
                s.wf(),
                forall|r: int, c: int| 0 <= r < 9 && 0 <= c < 9 ==> #[trigger] values[r][c] <= 9,
                forall|r: int, c: int|
                    0 <= r < 9 && 0 <= c < 9 ==> #[trigger] s@[r][c] == if 9 * r + c < i {
                        values[r][c]
                    } else {
                        0
                    },
            decreases 81 - i,
        {
            let row = i / 9;
            let col = i % 9;
            s.assign(row, col, values[row][col]);
            i += 1;
        }
        proof {
            assert forall|r: int| 0 <= r < 9 implies #[trigger] s@[r] =~= table(*values)[r] by {}
            assert(s@ =~= table(*values));
        }
        s
    }

    /// Reads cell (row, col).
    pub fn cell(&self, row: usize, col: usize) -> (v: u8)
        requires
            self.wf(),
            row < 9,
            col < 9,
        ensures
            v == self@[row as int][col as int],
    {
        self.rows[row][col]
    }

    /// Writes `value` into cell (row, col) of all three views; no legality check.
    pub fn assign(&mut self, row: usize, col: usize, value: u8)
        requires
            old(self).wf(),
            row < 9,
            col < 9,
            value <= 9,
        ensures
            final(self).wf(),
            final(self)@ == old(self)@.update(
                row as int,
                old(self)@[row as int].update(col as int, value),
            ),
    {
        let (b, k) = box_index_of(row, col);
        self.rows[row][col] = value;
        self.columns[col][row] = value;
        self.squares[b][k] = value;
        proof {
            lemma_box_bijection();
            let g = self@;
            assert forall|r: int, c: int| 0 <= r < 9 && 0 <= c < 9 implies #[trigger] self.box_view()[box_of(r, c)][slot_of(r, c)] == g[r][c] by {
                assert(box_row(box_of(r, c), slot_of(r, c)) == r);
                assert(box_col(box_of(r, c), slot_of(r, c)) == c);
                assert(box_row(b as int, k as int) == row);
                assert(box_col(b as int, k as int) == col);
                if r != row || c != col {
                    assert(box_of(r, c) != b || slot_of(r, c) != k);
                    assert(old(self).box_view()[box_of(r, c)][slot_of(r, c)] == old(self)@[r][c]);
                }
            }
            assert forall|r: int, c: int| 0 <= r < 9 && 0 <= c < 9 implies #[trigger] self.column_view()[c][r] == g[r][c] by {
                assert(old(self).column_view()[c][r] == old(self)@[r][c]);
            }
            assert(self@ =~= old(self)@.update(
                row as int,
                old(self)@[row as int].update(col as int, value),
            ));
        }
    }
}

/// Whether `v` stands in one of the nine cells of `a`.
fn region_has(a: &[u8; 9], v: u8) -> (r: bool)
    ensures
        r == exists|k: int| 0 <= k < 9 && #[trigger] a@[k] == v,
{
    let mut k: usize = 0;
    while k < 9
        invariant
            k <= 9,
            forall|j: int| 0 <= j < k ==> #[trigger] a@[j] != v,
        decreases 9 - k,
    {
        if a[k] == v {
            return true;
        }
        k += 1;
    }
    false
}

impl Sudoku {
    /// Whether `v` stands in row `row`, read from the row view.
    pub fn row_contains(&self, row: usize, v: u8) -> (r: bool)
        requires
            self.wf(),
            row < 9,
        ensures
            r == row_has(self@, row as int, v),
    {
        let r = region_has(&self.rows[row], v);
        proof {
            if r {
                let k = choose|k: int| 0 <= k < 9 && #[trigger] self.rows[row as int]@[k] == v;
                assert(self@[row as int][k] == v);
            } else {
                assert forall|k: int| 0 <= k < 9 implies #[trigger] self@[row as int][k] != v by {
                    assert(self@[row as int][k] == self.rows[row as int]@[k]);
                }
            }
        }
        r
    }

    /// Whether `v` stands in column `col`, read from the column view.
    pub fn column_contains(&self, col: usize, v: u8) -> (r: bool)
        requires
            self.wf(),
            col < 9,
        ensures
            r == col_has(self@, col as int, v),
    {
        let r = region_has(&self.columns[col], v);
        proof {
            if r {
                let k = choose|k: int| 0 <= k < 9 && #[trigger] self.columns[col as int]@[k] == v;
                assert(self.column_view()[col as int][k] == self@[k][col as int]);
            } else {
                assert forall|k: int| 0 <= k < 9 implies #[trigger] self@[k][col as int] != v by {
                    assert(self.column_view()[col as int][k] == self@[k][col as int]);
                }
            }
        }
        r
    }

    /// Whether `v` stands in box `b`, read from the box view.
    pub fn box_contains(&self, b: usize, v: u8) -> (r: bool)
        requires
            self.wf(),
            b < 9,
        ensures
            r == box_has(self@, b as int, v),
    {
        let r = region_has(&self.squares[b], v);
        proof {
            lemma_box_bijection();
            assert forall|k: int| 0 <= k < 9 implies #[trigger] self.squares[b as int]@[k]
                == self@[box_row(b as int, k)][box_col(b as int, k)] by {
                let (r0, c0) = (box_row(b as int, k), box_col(b as int, k));
                assert(self.box_view()[box_of(r0, c0)][slot_of(r0, c0)] == self@[r0][c0]);
            }
            if r {
                let k = choose|k: int| 0 <= k < 9 && #[trigger] self.squares[b as int]@[k] == v;
                assert(self@[box_row(b as int, k)][box_col(b as int, k)] == v);
            } else {
                assert forall|k: int| 0 <= k < 9 implies #[trigger] self@[box_row(b as int, k)][box_col(
                    b as int,
                    k,
                )] != v by {
                    assert(self.squares[b as int]@[k] != v);
                }
            }
        }
        r
    }
}

/// Whether no filled value of `a` occurs twice.
fn region_distinct(a: &[u8; 9]) -> (r: bool)
    ensures
        r == distinct_filled(a@),
{
    let mut k1: usize = 0;
    while k1 < 9
        invariant
            k1 <= 9,
            forall|i: int, j: int|
                0 <= i < k1 && 0 <= j < 9 && i != j && #[trigger] a@[i] != 0 ==> a@[i] != #[trigger] a@[j],
        decreases 9 - k1,
    {
        if a[k1] != 0 {
            let mut k2: usize = 0;
            while k2 < 9
                invariant
                    k1 < 9,
                    k2 <= 9,
                    a@[k1 as int] != 0,
                    forall|i: int, j: int|
                        0 <= i < k1 && 0 <= j < 9 && i != j && #[trigger] a@[i] != 0 ==> a@[i] != #[trigger] a@[j],
                    forall|j: int| 0 <= j < k2 && j != k1 ==> a@[k1 as int] != #[trigger] a@[j],
                decreases 9 - k2,
            {
                if k2 != k1 && a[k2] == a[k1] {
                    return false;
                }
                k2 += 1;
            }
        }
        k1 += 1;
    }
    true
}

impl Sudoku {
    /// The column and box views hold the columns and boxes of the cells.
    pub proof fn lemma_unit_views(&self)
        requires
            self.wf(),
        ensures
            forall|u: int|
                0 <= u < 9 ==> #[trigger] self.column_view()[u] == column_cells(self@, u)
                    && self.box_view()[u] == box_cells(self@, u),
    {
        lemma_box_bijection();
        assert forall|u: int| 0 <= u < 9 implies #[trigger] self.column_view()[u] == column_cells(
            self@,
            u,
        ) && self.box_view()[u] == box_cells(self@, u) by {
            assert forall|k: int| 0 <= k < 9 implies #[trigger] self.box_view()[u][k] == box_cells(
                self@,
                u,
            )[k] by {
                let (r, c) = (box_row(u, k), box_col(u, k));
                assert(self.box_view()[box_of(r, c)][slot_of(r, c)] == self@[r][c]);
            }
            assert(self.column_view()[u] =~= column_cells(self@, u));
            assert(self.box_view()[u] =~= box_cells(self@, u));
        }
    }

    /// Whether some row, column or box holds a filled value twice: a grid the
    /// solver gives no meaning to.
    pub fn has_conflict(&self) -> (r: bool)
        requires
            self.wf(),
        ensures
            r == !consistent(self@),
    {
        proof {
            self.lemma_unit_views();
        }
        let mut u: usize = 0;
        while u < 9
            invariant
                u <= 9,
                self.wf(),
                forall|i: int|
                    0 <= i < 9 ==> #[trigger] self.column_view()[i] == column_cells(self@, i)
                        && self.box_view()[i] == box_cells(self@, i),
                forall|i: int|
                    0 <= i < u ==> distinct_filled(#[trigger] self@[i]) && distinct_filled(
                        column_cells(self@, i),
                    ) && distinct_filled(box_cells(self@, i)),
            decreases 9 - u,
        {
            let ghost uu = u as int;
            assert(self@[uu] == self.rows[uu]@);
            assert(self.column_view()[uu] == self.columns[uu]@);
            assert(self.box_view()[uu] == self.squares[uu]@);
            if !region_distinct(&self.rows[u]) || !region_distinct(&self.columns[u])
                || !region_distinct(&self.squares[u]) {
                return true;
            }
            u += 1;
        }
        false
    }
}

/// The box of a cell and its position inside that box.
pub fn box_index_of(row: usize, col: usize) -> (r: (usize, usize))
    requires
        row < 9,
        col < 9,
    ensures
        r.0 == box_of(row as int, col as int),
        r.1 == slot_of(row as int, col as int),
        r.0 < 9,
        r.1 < 9,
{
    ((row / 3) * 3 + col / 3, (row % 3) * 3 + col % 3)
}

/// Two well-formed grids with the same cells are the same value: the column
/// and box views are fixed by the cells.
pub proof fn lemma_cells_determine_grid(a: Sudoku, b: Sudoku)
    requires
        a.wf(),
        b.wf(),
        a@ == b@,
    ensures
        a == b,
{
    lemma_box_bijection();
    assert forall|i: int| 0 <= i < 9 implies #[trigger] a.rows[i] == b.rows[i] by {
        assert(a.rows[i]@ == a@[i]);
        assert(a.rows[i] =~= b.rows[i]);
    }
    assert forall|i: int| 0 <= i < 9 implies #[trigger] a.columns[i] == b.columns[i] by {
        assert forall|j: int| 0 <= j < 9 implies #[trigger] a.columns[i]@[j] == b.columns[i]@[j] by {
            assert(a.column_view()[i][j] == a@[j][i]);
            assert(b.column_view()[i][j] == b@[j][i]);
        }
        assert(a.columns[i] =~= b.columns[i]);
    }
    assert forall|i: int| 0 <= i < 9 implies #[trigger] a.squares[i] == b.squares[i] by {
        assert forall|j: int| 0 <= j < 9 implies #[trigger] a.squares[i]@[j] == b.squares[i]@[j] by {
            let (r, c) = (box_row(i, j), box_col(i, j));
            assert(a.box_view()[box_of(r, c)][slot_of(r, c)] == a@[r][c]);
            assert(b.box_view()[box_of(r, c)][slot_of(r, c)] == b@[r][c]);
        }
        assert(a.squares[i] =~= b.squares[i]);
    }
    assert(a.rows =~= b.rows);
    assert(a.columns =~= b.columns);
    assert(a.squares =~= b.squares);
}

/// Cell (r, c) is position `slot_of(r, c)` of box `box_of(r, c)`, and every
/// position of every box is reached by exactly one cell.
pub proof fn lemma_box_bijection()
    ensures
        forall|r: int, c: int|
            0 <= r < 9 && 0 <= c < 9 ==> {
                &&& 0 <= #[trigger] box_of(r, c) < 9
                &&& 0 <= slot_of(r, c) < 9
                &&& box_row(box_of(r, c), slot_of(r, c)) == r
                &&& box_col(box_of(r, c), slot_of(r, c)) == c
            },
        forall|b: int, k: int|
            0 <= b < 9 && 0 <= k < 9 ==> {
                &&& 0 <= #[trigger] box_row(b, k) < 9
                &&& 0 <= box_col(b, k) < 9
                &&& box_of(box_row(b, k), box_col(b, k)) == b
                &&& slot_of(box_row(b, k), box_col(b, k)) == k
            },
{
}

} // verus!
