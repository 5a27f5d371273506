use sudoku::matrix::{Sudoku, MAX_ATTEMPTS};

fn parse(text: &str) -> [[u8; 9]; 9] {
    let bytes = text.as_bytes();
    let mut g = [[0u8; 9]; 9];
    for i in 0..9 {
        for j in 0..9 {
            g[i][j] = bytes[i * 9 + j] - b'0';
        }
    }
    g
}

const SEVENTEEN: &str =
    "500000013000703000400000000200000600000080040010000000000610500087000000000400000";

const COMPLETE: &str =
    "526849713198723456473156298234597681765381942819264375942618537687935124351472869";

const SEVENTEEN_SOLVED: [[u8; 9]; 9] = [
    [5, 2, 6, 8, 4, 9, 7, 1, 3],
    [1, 9, 8, 7, 2, 3, 4, 5, 6],
    [4, 7, 3, 1, 5, 6, 2, 9, 8],
    [2, 3, 4, 5, 9, 7, 6, 8, 1],
    [7, 6, 5, 3, 8, 1, 9, 4, 2],
    [8, 1, 9, 2, 6, 4, 3, 7, 5],
    [9, 4, 2, 6, 1, 8, 5, 3, 7],
    [6, 8, 7, 9, 3, 5, 1, 2, 4],
    [3, 5, 1, 4, 7, 2, 8, 6, 9],
];

#[test]
fn missing_cells_in_row_major_order() {
    let s = Sudoku::new(parse(SEVENTEEN));
    let m = s.missing_positions();
    assert_eq!(m.len(), 81 - 17);
    assert_eq!(m[0], (0, 1));
    assert_eq!(m[5], (0, 6));
    assert_eq!(m[6], (1, 0));
    assert_eq!(s.cursor(), 0);
    for w in m.windows(2) {
        assert!(w[0] < w[1]);
    }
}

#[test]
fn seventeen_clue_puzzle_is_solved_within_budget() {
    let mut s = Sudoku::new(parse(SEVENTEEN));
    let (attempts, finished) = s.solve_within(MAX_ATTEMPTS);
    assert!(finished);
    assert_eq!(attempts, 2202);
    assert!(s.is_solved());
    assert_eq!(s.grid(), SEVENTEEN_SOLVED);
}

#[test]
fn solve_fills_the_seventeen_clue_puzzle() {
    let mut s = Sudoku::new(parse(SEVENTEEN));
    s.solve();
    assert!(s.is_solved());
    assert_eq!(s.grid(), SEVENTEEN_SOLVED);
}

#[test]
fn duplicate_givens_exhaust_the_budget() {
    let mut text = String::from(SEVENTEEN);
    text.replace_range(1..2, "5");
    let mut s = Sudoku::new(parse(&text));
    let (attempts, finished) = s.solve_within(MAX_ATTEMPTS);
    assert!(!finished);
    assert_eq!(attempts, 100_000);
    assert!(!s.is_solved());
}

#[test]
fn complete_grid_is_left_unchanged() {
    let g = parse(COMPLETE);
    let mut s = Sudoku::new(g);
    assert!(s.missing_positions().is_empty());
    assert!(s.is_solved());
    let (attempts, finished) = s.solve_within(MAX_ATTEMPTS);
    assert_eq!(attempts, 0);
    assert!(finished);
    assert_eq!(s.grid(), g);
    s.solve();
    assert_eq!(s.grid(), g);
}

#[test]
fn givens_are_never_changed() {
    let g = parse(SEVENTEEN);
    for budget in [1u64, 7, 100, 2202] {
        let mut s = Sudoku::new(g);
        s.solve_within(budget);
        let out = s.grid();
        for i in 0..9 {
            for j in 0..9 {
                if g[i][j] != 0 {
                    assert_eq!(out[i][j], g[i][j]);
                }
            }
        }
    }
}

#[test]
fn repeated_runs_agree() {
    let g = parse(SEVENTEEN);
    let mut a = Sudoku::new(g);
    let mut b = Sudoku::new(g);
    let ra = a.solve_within(1500);
    let rb = b.solve_within(1500);
    assert_eq!(ra, rb);
    assert_eq!(a.grid(), b.grid());
    assert_eq!(a.cursor(), b.cursor());
}

#[test]
fn each_attempt_raises_or_clears_one_cell() {
    let g = parse(SEVENTEEN);
    let mut prev = g;
    for budget in 1u64..=400 {
        let mut s = Sudoku::new(g);
        s.solve_within(budget);
        let cur = s.grid();
        let mut changed = 0;
        for i in 0..9 {
            for j in 0..9 {
                if cur[i][j] != prev[i][j] {
                    changed += 1;
                    assert!(cur[i][j] == 0 || cur[i][j] > prev[i][j]);
                }
            }
        }
        assert!(changed <= 1);
        prev = cur;
    }
}

#[test]
fn attempts_stay_within_budget() {
    let g = parse(SEVENTEEN);
    for budget in [0u64, 1, 2, 3, 10, 500] {
        let mut s = Sudoku::new(g);
        let (attempts, finished) = s.solve_within(budget);
        assert_eq!(attempts, budget);
        assert!(!finished);
    }
}

#[test]
fn first_attempts_fill_the_first_row() {
    let g = parse(SEVENTEEN);
    let mut s = Sudoku::new(g);
    s.solve_within(1);
    assert_eq!(s.grid()[0], [5, 2, 0, 0, 0, 0, 0, 1, 3]);
    let mut s = Sudoku::new(g);
    s.solve_within(3);
    assert_eq!(s.grid()[0], [5, 2, 6, 8, 0, 0, 0, 1, 3]);
}

#[test]
fn rendering_places_dividers() {
    let mut s = Sudoku::new(parse(SEVENTEEN));
    s.solve();
    let text = String::from_utf8(s.render()).unwrap();
    let lines: Vec<&str> = text.lines().collect();
    assert_eq!(lines.len(), 11);
    assert_eq!(lines[0], "5 2 6 | 8 4 9 | 7 1 3 ");
    assert_eq!(lines[3], "---------------------");
    assert_eq!(lines[7], "---------------------");
    assert_eq!(lines[10], "3 5 1 | 4 7 2 | 8 6 9 ");
    assert!(text.starts_with("5 2 6 | 8 4 9 | 7 1 3 \n1 9 8 | 7 2 3 | 4 5 6 \n"));
    assert!(text.ends_with("8 6 9 \n"));
}

#[test]
fn rendering_an_empty_grid() {
    let s = Sudoku::new([[0u8; 9]; 9]);
    let text = String::from_utf8(s.render()).unwrap();
    assert!(text.starts_with("0 0 0 | 0 0 0 | 0 0 0 \n"));
    assert_eq!(text.len(), 9 * 23 + 2 * 22);
}

#[test]
fn cursor_moves_one_step_at_a_time() {
    let mut s = Sudoku::new(parse(SEVENTEEN));
    assert!(!s.move_backward());
    assert_eq!(s.cursor(), 0);
    assert!(s.move_forward());
    assert!(s.move_forward());
    assert_eq!(s.cursor(), 2);
    assert!(s.move_backward());
    assert_eq!(s.cursor(), 1);
    for _ in 0..62 {
        assert!(s.move_forward());
    }
    assert_eq!(s.cursor(), 63);
    assert!(!s.move_forward());
    assert_eq!(s.cursor(), 63);
}

#[test]
fn cursor_on_a_complete_grid_cannot_move() {
    let mut s = Sudoku::new(parse(COMPLETE));
    assert!(!s.move_forward());
    assert!(!s.move_backward());
    assert_eq!(s.cursor(), 0);
}

#[test]
fn unsolved_grid_is_not_solved() {
    let s = Sudoku::new(parse(SEVENTEEN));
    assert!(!s.is_solved());
    let mut g = parse(COMPLETE);
    g[0][0] = 1;
    g[1][0] = 5;
    assert!(!Sudoku::new(g).is_solved());
}
