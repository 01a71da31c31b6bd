use sudoku::{box_index_of, candidates, load_sudoku, solve_sudoku, Sudoku};

const SOLVED: [[u8; 9]; 9] = [
    [5, 3, 4, 6, 7, 8, 9, 1, 2],
    [6, 7, 2, 1, 9, 5, 3, 4, 8],
    [1, 9, 8, 3, 4, 2, 5, 6, 7],
    [8, 5, 9, 7, 6, 1, 4, 2, 3],
    [4, 2, 6, 8, 5, 3, 7, 9, 1],
    [7, 1, 3, 9, 2, 4, 8, 5, 6],
    [9, 6, 1, 5, 3, 7, 2, 8, 4],
    [2, 8, 7, 4, 1, 9, 6, 3, 5],
    [3, 4, 5, 2, 8, 6, 1, 7, 9],
];

const PUZZLE: [[u8; 9]; 9] = [
    [5, 3, 0, 0, 7, 0, 0, 0, 0],
    [6, 0, 0, 1, 9, 5, 0, 0, 0],
    [0, 9, 8, 0, 0, 0, 0, 6, 0],
    [8, 0, 0, 0, 6, 0, 0, 0, 3],
    [4, 0, 0, 8, 0, 3, 0, 0, 1],
    [7, 0, 0, 0, 2, 0, 0, 0, 6],
    [0, 6, 0, 0, 0, 0, 2, 8, 0],
    [0, 0, 0, 4, 1, 9, 0, 0, 5],
    [0, 0, 0, 0, 8, 0, 0, 7, 9],
];

fn cells(s: &Sudoku) -> [[u8; 9]; 9] {
    let mut out = [[0u8; 9]; 9];
    for r in 0..9 {
        for c in 0..9 {
            out[r][c] = s.cell(r, c);
        }
    }
    out
}

fn each_digit_once(values: [u8; 9]) -> bool {
    let mut seen = [false; 10];
    for v in values {
        if v == 0 || v > 9 || seen[v as usize] {
            return false;
        }
        seen[v as usize] = true;
    }
    true
}

fn is_valid_solution(g: &[[u8; 9]; 9]) -> bool {
    for u in 0..9 {
        let mut col = [0u8; 9];
        let mut bx = [0u8; 9];
        for k in 0..9 {
            col[k] = g[k][u];
            bx[k] = g[(u / 3) * 3 + k / 3][(u % 3) * 3 + k % 3];
        }
        if !each_digit_once(g[u]) || !each_digit_once(col) || !each_digit_once(bx) {
            return false;
        }
    }
    true
}

#[test]
fn box_index_maps_cells_to_boxes_and_slots() {
    assert_eq!(box_index_of(0, 0), (0, 0));
    assert_eq!(box_index_of(4, 7), (5, 4));
    assert_eq!(box_index_of(8, 8), (8, 8));
    assert_eq!(box_index_of(2, 3), (1, 6));
    assert_eq!(box_index_of(6, 1), (6, 1));
}

#[test]
fn from_rows_keeps_every_cell() {
    let s = Sudoku::from_rows(&PUZZLE);
    assert_eq!(cells(&s), PUZZLE);
    assert!(!s.row_contains(0, 4));
    assert!(s.row_contains(0, 7));
    assert!(s.column_contains(0, 4));
    assert!(!s.column_contains(0, 1));
    assert!(s.box_contains(4, 6));
    assert!(!s.box_contains(4, 5));
}

#[test]
fn assign_writes_all_three_views() {
    let mut s = Sudoku::new();
    s.assign(4, 7, 6);
    assert_eq!(s.cell(4, 7), 6);
    assert!(s.row_contains(4, 6));
    assert!(s.column_contains(7, 6));
    assert!(s.box_contains(5, 6));
    assert!(!s.box_contains(4, 6));
    s.assign(4, 7, 0);
    assert!(!s.row_contains(4, 6));
    assert!(!s.column_contains(7, 6));
    assert!(!s.box_contains(5, 6));
}

#[test]
fn candidates_exclude_row_column_and_box() {
    let s = Sudoku::from_rows(&PUZZLE);
    // Row 0 has 5 3 7, column 2 has 8, box 0 has 5 3 6 9 8.
    assert_eq!(candidates(&s, 0, 2), vec![1, 2, 4]);
    // Row 4 has 4 8 3 1, column 4 has 7 9 6 2 1 8, box 4 has 6 8 3 2.
    assert_eq!(candidates(&s, 4, 4), vec![5]);
    let full = Sudoku::from_rows(&SOLVED);
    assert_eq!(candidates(&full, 0, 0), Vec::<u8>::new());
}

#[test]
fn empty_grid_is_solved_validly() {
    let mut s = Sudoku::new();
    let solved = solve_sudoku(&mut s).expect("an empty grid has a solution");
    let g = cells(&solved);
    assert!(is_valid_solution(&g));
    assert_eq!(cells(&s), g);
    // Ascending candidates fill the first row in order.
    assert_eq!(g[0], [1, 2, 3, 4, 5, 6, 7, 8, 9]);
}

#[test]
fn puzzle_is_solved_to_its_unique_solution() {
    let mut s = Sudoku::from_rows(&PUZZLE);
    let solved = solve_sudoku(&mut s).expect("the puzzle has a solution");
    assert_eq!(cells(&solved), SOLVED);
    assert!(is_valid_solution(&cells(&solved)));
}

#[test]
fn solving_twice_gives_the_same_grid() {
    let mut a = Sudoku::new();
    let mut b = Sudoku::new();
    let ra = solve_sudoku(&mut a).unwrap();
    let rb = solve_sudoku(&mut b).unwrap();
    assert_eq!(cells(&ra), cells(&rb));
    let mut c = Sudoku::from_rows(&PUZZLE);
    let mut d = Sudoku::from_rows(&PUZZLE);
    assert_eq!(cells(&solve_sudoku(&mut c).unwrap()), cells(&solve_sudoku(&mut d).unwrap()));
}

#[test]
fn single_gap_gets_its_only_value() {
    let mut g = SOLVED;
    g[4][4] = 0;
    let mut s = Sudoku::from_rows(&g);
    assert_eq!(candidates(&s, 4, 4), vec![5]);
    let solved = solve_sudoku(&mut s).unwrap();
    assert_eq!(cells(&solved), SOLVED);
}

#[test]
fn repeated_row_with_a_gap_is_unsolvable_and_left_unchanged() {
    let mut g = [[1, 2, 3, 4, 5, 6, 7, 8, 9]; 9];
    g[0][0] = 0;
    let mut s = Sudoku::from_rows(&g);
    assert!(s.has_conflict());
    assert!(solve_sudoku(&mut s).is_none());
    assert_eq!(cells(&s), g);
}

#[test]
fn repeated_row_without_gap_is_flagged_as_conflicting() {
    let g = [[1, 2, 3, 4, 5, 6, 7, 8, 9]; 9];
    let mut s = Sudoku::from_rows(&g);
    assert!(s.has_conflict());
    // A grid with no empty cell is returned as it is: the conflict check is
    // what rejects it.
    let out = solve_sudoku(&mut s).unwrap();
    assert_eq!(cells(&out), g);
}

#[test]
fn two_fives_in_a_row_with_gaps_is_unsolvable() {
    let mut g = SOLVED;
    // Row 0 becomes 5 3 4 6 7 8 9 5 2: two 5s. The gap at (5, 7) can only
    // take 5 by its row, and column 7 now holds a 5 in row 0.
    g[0][7] = 5;
    g[5][7] = 0;
    let mut s = Sudoku::from_rows(&g);
    assert!(s.has_conflict());
    assert!(solve_sudoku(&mut s).is_none());
    assert_eq!(cells(&s), g);
}

#[test]
fn failed_search_restores_a_partly_filled_grid() {
    // Cell (0, 8) can only be 9 by its row, but column 8 already holds a 9.
    let mut g = [[0u8; 9]; 9];
    g[0] = [1, 2, 3, 4, 5, 6, 7, 8, 0];
    g[5][8] = 9;
    let mut s = Sudoku::from_rows(&g);
    assert!(!s.has_conflict());
    assert!(solve_sudoku(&mut s).is_none());
    assert_eq!(cells(&s), g);
}

#[test]
fn consistent_grids_have_no_conflict() {
    assert!(!Sudoku::new().has_conflict());
    assert!(!Sudoku::from_rows(&PUZZLE).has_conflict());
    assert!(!Sudoku::from_rows(&SOLVED).has_conflict());
    let mut g = PUZZLE;
    g[8][0] = 5;
    assert!(Sudoku::from_rows(&g).has_conflict());
    let mut h = PUZZLE;
    h[1][1] = 8;
    assert!(Sudoku::from_rows(&h).has_conflict());
}

#[test]
fn load_reads_nine_lines_of_digits() {
    let text = "530070000\n600195000\n098000060\n800060003\n400803001\n700020006\n060000280\n000419005\n000080079\n";
    let s = load_sudoku(text.as_bytes()).unwrap();
    assert_eq!(cells(&s), PUZZLE);
    let without_last_break = &text[..text.len() - 1];
    assert_eq!(cells(&load_sudoku(without_last_break.as_bytes()).unwrap()), PUZZLE);
}

#[test]
fn load_rejects_malformed_text() {
    let good = "530070000\n600195000\n098000060\n800060003\n400803001\n700020006\n060000280\n000419005\n000080079\n";
    assert!(load_sudoku(b"").is_none());
    assert!(load_sudoku(good.replace("098", "0x8").as_bytes()).is_none());
    assert!(load_sudoku(good.replacen("\n", " ", 1).as_bytes()).is_none());
    assert!(load_sudoku(&good.as_bytes()[..80]).is_none());
    let extra = format!("{}0", good);
    assert!(load_sudoku(extra.as_bytes()).is_none());
}

#[test]
fn text_puts_a_space_after_each_digit() {
    let s = Sudoku::from_rows(&SOLVED);
    let text = String::from_utf8(s.to_text()).unwrap();
    let lines: Vec<&str> = text.lines().collect();
    assert_eq!(lines.len(), 9);
    assert_eq!(lines[0], "5 3 4 6 7 8 9 1 2 ");
    assert_eq!(lines[8], "3 4 5 2 8 6 1 7 9 ");
    assert_eq!(text.len(), 171);
    assert!(text.ends_with(" \n"));
}
