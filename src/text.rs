use vstd::prelude::*;
use crate::grid::Sudoku;

verus! {

/// Byte of the digit `0`.
pub const ZERO: u8 = 48;

/// Byte of a line break.
pub const NEWLINE: u8 = 10;

/// Byte of a space.
pub const SPACE: u8 = 32;

/// `b` is the byte of one of the digits 0..=9.
pub open spec fn is_digit(b: u8) -> bool {
    ZERO <= b <= ZERO + 9
}

/// `t` is nine lines of nine digits, each line ended by a line break (the
/// last one may lack it). Cell (r, c) is then byte `10 * r + c`.
pub open spec fn grid_text(t: Seq<u8>) -> bool {
    &&& t.len() == 89 || (t.len() == 90 && t[89] == NEWLINE)
    &&& forall|r: int, c: int| 0 <= r < 9 && 0 <= c < 9 ==> is_digit(#[trigger] t[10 * r + c])
    &&& forall|r: int| 0 <= r < 8 ==> #[trigger] t[10 * r + 9] == NEWLINE
}

/// The text of a grid: nine lines, each holding the row's nine digits, every
/// digit followed by a space.
pub open spec fn grid_lines(g: Seq<Seq<u8>>) -> Seq<u8> {
    Seq::new(
        171,
        |i: int|
            if i % 19 == 18 {
                NEWLINE
            } else if i % 19 % 2 == 1 {
                SPACE
            } else {
                (ZERO + g[i / 19][i % 19 / 2]) as u8
            },
    )
}

/// Reads a grid from its text: nine lines of nine digits, `0` for an empty
/// cell. `None` when the text has another shape or a byte that is not a digit.
pub fn load_sudoku(text: &[u8]) -> (res: Option<Sudoku>)
    ensures
        res is Some <==> grid_text(text@),
        res matches Some(s) ==> s.wf() && forall|r: int, c: int|
            0 <= r < 9 && 0 <= c < 9 ==> #[trigger] s@[r][c] == text@[10 * r + c] - ZERO,
{
    let n = text.len();
    if n != 89 && !(n == 90 && text[89] == NEWLINE) {
        return None;
    }
    let mut values = [[0u8; 9]; 9];
    let mut r: usize = 0;
    while r < 9
        invariant
            r <= 9,
            text@.len() == 89 || (text@.len() == 90 && text@[89] == NEWLINE),
            forall|i: int, c: int| 0 <= i < r && 0 <= c < 9 ==> is_digit(#[trigger] text@[10 * i + c]),
            forall|i: int| 0 <= i < r && i < 8 ==> #[trigger] text@[10 * i + 9] == NEWLINE,
            forall|i: int, c: int|
                0 <= i < r && 0 <= c < 9 ==> #[trigger] values[i][c] == text@[10 * i + c] - ZERO,
        decreases 9 - r,
    {
        if r < 8 && text[10 * r + 9] != NEWLINE {
            return None;
        }
        let mut c: usize = 0;
        while c < 9
            invariant
                r < 9,
                c <= 9,
                text@.len() >= 89,
                forall|i: int, k: int| 0 <= i < r && 0 <= k < 9 ==> is_digit(#[trigger] text@[10 * i + k]),
                forall|k: int| 0 <= k < c ==> is_digit(#[trigger] text@[10 * r + k]),
                forall|i: int, k: int|
                    0 <= i < r && 0 <= k < 9 ==> #[trigger] values[i][k] == text@[10 * i + k] - ZERO,
                forall|k: int| 0 <= k < c ==> #[trigger] values[r as int][k] == text@[10 * r + k] - ZERO,
            decreases 9 - c,
        {
            let b = text[10 * r + c];
            if b < ZERO || b > ZERO + 9 {
                return None;
            }
            values[r][c] = b - ZERO;
            c += 1;
        }
        r += 1;
    }
    let s = Sudoku::from_rows(&values);
    Some(s)
}

impl Sudoku {
    /// The grid as text: one line per row, each digit followed by a space.
    pub fn to_text(&self) -> (t: Vec<u8>)
        requires
            self.wf(),
        ensures
            t@ == grid_lines(self@),
    {
        let mut t: Vec<u8> = Vec::new();
        let mut r: usize = 0;
        while r < 9
            invariant
                r <= 9,
                self.wf(),
                t@ == grid_lines(self@).take(19 * r),
            decreases 9 - r,
        {
            let mut c: usize = 0;
            while c < 9
                invariant
                    r < 9,
                    c <= 9,
                    self.wf(),
                    t@ == grid_lines(self@).take(19 * r + 2 * c),
                decreases 9 - c,
            {
                let ghost i = 19 * r + 2 * c;
                assert(i % 19 == 2 * c && i / 19 == r);
                assert((i + 1) % 19 == 2 * c + 1);
                t.push(ZERO + self.cell(r, c));
                t.push(SPACE);
                assert(t@ =~= grid_lines(self@).take(i + 2));
                c += 1;
            }
            let ghost i = 19 * r + 18;
            assert(i % 19 == 18);
            t.push(NEWLINE);
            assert(t@ =~= grid_lines(self@).take(19 * (r + 1)));
            r += 1;
        }
        assert(t@ =~= grid_lines(self@));
        t
    }
}

} // verus!
