//! The solver: a grid, the fixed list of its initially empty cells, and a
//! cursor into that list.
use vstd::prelude::*;
use crate::grid::{
    ascending, band_start, cells_text, digits_only, divider, grid_text, in_block_elsewhere,
    rows_text, solved_grid, first_placeable_from, grid_of, holds_digit, in_block, in_col, in_row,
    is_square, lemma_push_contains, missing_cells, placeable, set_cell, zeros_in_row, zeros_in_rows,
};

verus! {

/// The number of placement attempts that `Sudoku::solve` allows itself.
pub const MAX_ATTEMPTS: u64 = 100_000;

/// What a solver is: its grid, the positions it fills in visiting order, and
/// the index of the position under consideration.
pub struct SolverView {
    pub grid: Seq<Seq<u8>>,
    pub missing: Seq<(u8, u8)>,
    pub cursor: int,
}

impl SolverView {
    /// The state in which a solver starts on grid `g`.
    pub open spec fn initial(g: Seq<Seq<u8>>) -> SolverView {
        SolverView { grid: g, missing: missing_cells(g), cursor: 0 }
    }

    /// A square grid of digits, positions inside it, and a cursor on one
    /// of them where there are any.
    pub open spec fn wf(self) -> bool {
        &&& is_square(self.grid)
        &&& digits_only(self.grid)
        &&& forall|k: int|
            0 <= k < self.missing.len() ==> (#[trigger] self.missing[k]).0 < 9
                && self.missing[k].1 < 9
        &&& if self.missing.len() == 0 {
            self.cursor == 0
        } else {
            0 <= self.cursor < self.missing.len()
        }
    }

    /// Row of the cell under consideration.
    pub open spec fn row(self) -> int {
        self.missing[self.cursor].0 as int
    }

    /// Column of the cell under consideration.
    pub open spec fn col(self) -> int {
        self.missing[self.cursor].1 as int
    }

    /// The cursor has reached the last position.
    pub open spec fn at_last(self) -> bool {
        self.cursor + 1 >= self.missing.len()
    }

    /// One step forward, where one is possible.
    pub open spec fn advanced(self) -> SolverView {
        if self.at_last() {
            self
        } else {
            SolverView { cursor: self.cursor + 1, ..self }
        }
    }

    /// One step back, where one is possible.
    pub open spec fn retreated(self) -> SolverView {
        if self.cursor == 0 {
            self
        } else {
            SolverView { cursor: self.cursor - 1, ..self }
        }
    }

    /// One placement attempt at the cursor: the smallest placeable digit
    /// above the cell's value is written; where there is none, the cell is
    /// cleared and the cursor steps back twice.
    pub open spec fn placed(self) -> SolverView {
        let (r, c) = (self.row(), self.col());
        let d = first_placeable_from(self.grid, r, c, self.grid[r][c] + 1);
        if d != 0 {
            SolverView { grid: set_cell(self.grid, r, c, d as u8), ..self }
        } else {
            SolverView { grid: set_cell(self.grid, r, c, 0), ..self }.retreated().retreated()
        }
    }
}

/// The rest of a run from state `s`, which has just made a placement attempt,
/// with `remaining` attempts left: the final state, whether the run ended
/// because the cursor could not advance, and the attempts made.
pub open spec fn run(s: SolverView, remaining: nat) -> (SolverView, bool, nat)
    decreases remaining,
{
    if s.at_last() {
        (s, true, 0)
    } else if remaining == 0 {
        (s.advanced(), false, 0)
    } else {
        let (t, finished, n) = run(s.advanced().placed(), (remaining - 1) as nat);
        (t, finished, n + 1)
    }
}

/// A whole run from state `s` with at most `budget` placement attempts.
pub open spec fn solved_by(s: SolverView, budget: nat) -> (SolverView, bool, nat) {
    if s.missing.len() == 0 {
        (s, true, 0)
    } else if budget == 0 {
        (s, false, 0)
    } else {
        let (t, finished, n) = run(s.placed(), (budget - 1) as nat);
        (t, finished, n + 1)
    }
}

/// A solver: the grid it fills in place, the positions of the cells that
/// were empty when it was made, and a cursor into that list.
pub struct Sudoku {
    matrix: [[u8; 9]; 9],
    missing_cell_coords: Vec<(u8, u8)>,
    visited_missing_cell_coords_index: usize,
}

impl View for Sudoku {
    type V = SolverView;

    closed spec fn view(&self) -> SolverView {
        SolverView {
            grid: grid_of(self.matrix),
            missing: self.missing_cell_coords@,
            cursor: self.visited_missing_cell_coords_index as int,
        }
    }
}

impl Sudoku {
    /// The solver's state is well formed.
    pub open spec fn wf(&self) -> bool {
        self@.wf()
    }

    /// A solver on grid `v`, with the cursor on the first empty cell.
    pub fn new(v: [[u8; 9]; 9]) -> (s: Sudoku)
        requires
            digits_only(grid_of(v)),
        ensures
            s.wf(),
            s@ == SolverView::initial(grid_of(v)),
    {
        let s = Sudoku {
            matrix: v,
            missing_cell_coords: Sudoku::scan_for_missing_cell_coords(v),
            visited_missing_cell_coords_index: 0,
        };
        assert(is_square(s@.grid));
        s
    }

    /// The positions of the empty cells of `v`, in row-major order.
    fn scan_for_missing_cell_coords(v: [[u8; 9]; 9]) -> (result: Vec<(u8, u8)>)
        ensures
            result@ == missing_cells(grid_of(v)),
            forall|k: int| 0 <= k < result@.len() ==> (#[trigger] result@[k]).0 < 9
                && result@[k].1 < 9,
    {
        let mut result: Vec<(u8, u8)> = Vec::new();
        let ghost g = grid_of(v);
        let mut i: usize = 0;
        while i < 9
            invariant
                0 <= i <= 9,
                g == grid_of(v),
                result@ == zeros_in_rows(g, i as int),
                forall|k: int| 0 <= k < result@.len() ==> (#[trigger] result@[k]).0 < 9
                    && result@[k].1 < 9,
            decreases 9 - i,
        {
            let row = v[i];
            let ghost before = result@;
            let mut j: usize = 0;
            while j < 9
                invariant
                    0 <= i < 9,
                    0 <= j <= 9,
                    g == grid_of(v),
                    row@ == g[i as int],
                    result@ == before + zeros_in_row(g, i as int, j as int),
                    forall|k: int| 0 <= k < result@.len() ==> (#[trigger] result@[k]).0 < 9
                        && result@[k].1 < 9,
                decreases 9 - j,
            {
                if row[j] == 0u8 {
                    result.push((i as u8, j as u8));
                }
                j += 1;
            }
            i += 1;
        }
        result
    }

    /// Whether the block of `(r, c)` holds `d`, the cell itself included.
    fn block_holds(&self, r: usize, c: usize, d: u8) -> (b: bool)
        requires
            r < 9,
            c < 9,
        ensures
            b == in_block(self@.grid, r as int, c as int, d as int),
    {
        let ghost g = self@.grid;
        let br: usize = (r / 3) * 3;
        let bc: usize = (c / 3) * 3;
        let mut i: usize = br;
        while i < br + 3
            invariant
                g == grid_of(self.matrix),
                br == band_start(r as int),
                bc == band_start(c as int),
                br + 3 <= 9,
                bc + 3 <= 9,
                br <= i <= br + 3,
                forall|a: int, b: int| br <= a < i && bc <= b < bc + 3 ==> g[a][b] != d,
            decreases br + 3 - i,
        {
            let mut j: usize = bc;
            while j < bc + 3
                invariant
                    g == grid_of(self.matrix),
                    br == band_start(r as int),
                    bc == band_start(c as int),
                    br + 3 <= 9,
                    bc + 3 <= 9,
                    br <= i < br + 3,
                    bc <= j <= bc + 3,
                    forall|a: int, b: int| br <= a < i && bc <= b < bc + 3 ==> g[a][b] != d,
                    forall|b: int| bc <= b < j ==> g[i as int][b] != d,
                decreases bc + 3 - j,
            {
                if self.matrix[i][j] == d {
                    assert(g[i as int][j as int] == d);
                    return true;
                }
                j += 1;
            }
            i += 1;
        }
        false
    }

    /// Whether row `r` holds `d` outside column `c`.
    fn row_holds(&self, r: usize, c: usize, d: u8) -> (b: bool)
        requires
            r < 9,
            c < 9,
        ensures
            b == in_row(self@.grid, r as int, c as int, d as int),
    {
        let ghost g = self@.grid;
        let mut j: usize = 0;
        while j < 9
            invariant
                g == grid_of(self.matrix),
                0 <= j <= 9,
                r < 9,
                forall|b: int| 0 <= b < j && b != c ==> g[r as int][b] != d,
            decreases 9 - j,
        {
            if j != c && self.matrix[r][j] == d {
                assert(g[r as int][j as int] == d);
                return true;
            }
            j += 1;
        }
        false
    }

    /// Whether column `c` holds `d` outside row `r`.
    fn col_holds(&self, r: usize, c: usize, d: u8) -> (b: bool)
        requires
            r < 9,
            c < 9,
        ensures
            b == in_col(self@.grid, r as int, c as int, d as int),
    {
        let ghost g = self@.grid;
        let mut i: usize = 0;
        while i < 9
            invariant
                g == grid_of(self.matrix),
                0 <= i <= 9,
                c < 9,
                forall|a: int| 0 <= a < i && a != r ==> g[a][c as int] != d,
            decreases 9 - i,
        {
            if i != r && self.matrix[i][c] == d {
                assert(g[i as int][c as int] == d);
                return true;
            }
            i += 1;
        }
        false
    }

    /// The digits that the block of the current cell does not hold, the cell
    /// itself included, in increasing order.
    fn get_missing_numbers_in_block(&self) -> (r: Vec<u8>)
        requires
            self.wf(),
            self@.missing.len() > 0,
        ensures
            ascending(r@),
            forall|d: u8|
                #[trigger] r@.contains(d) <==> (1 <= d <= 9 && !in_block(
                    self@.grid,
                    self@.row(),
                    self@.col(),
                    d as int,
                )),
    {
        let ghost g = self@.grid;
        let (y, x) = self.missing_cell_coords[self.visited_missing_cell_coords_index];
        let mut available_numbers: Vec<u8> = Vec::new();
        let mut d: u8 = 1;
        while d <= 9
            invariant
                g == self@.grid,
                y as int == self@.row(),
                x as int == self@.col(),
                y < 9,
                x < 9,
                1 <= d <= 10,
                ascending(available_numbers@),
                forall|i: int|
                    0 <= i < available_numbers@.len() ==> available_numbers@[i] < d,
                forall|e: u8|
                    #[trigger] available_numbers@.contains(e) <==> (1 <= e < d && !in_block(
                        g,
                        y as int,
                        x as int,
                        e as int,
                    )),
            decreases 10 - d,
        {
            if !self.block_holds(y as usize, x as usize, d) {
                proof {
                    lemma_push_contains(available_numbers@, d);
                }
                available_numbers.push(d);
            }
            d += 1;
        }
        available_numbers
    }

    /// The digits that the column of the current cell does not hold outside the
    /// cell, in increasing order.
    fn look_for_available_numbers_in_column(&self) -> (r: Vec<u8>)
        requires
            self.wf(),
            self@.missing.len() > 0,
        ensures
            ascending(r@),
            forall|d: u8|
                #[trigger] r@.contains(d) <==> (1 <= d <= 9 && !in_col(
                    self@.grid,
                    self@.row(),
                    self@.col(),
                    d as int,
                )),
    {
        let ghost g = self@.grid;
        let (y, x) = self.missing_cell_coords[self.visited_missing_cell_coords_index];
        let mut available_numbers: Vec<u8> = Vec::new();
        let mut d: u8 = 1;
        while d <= 9
            invariant
                g == self@.grid,
                y as int == self@.row(),
                x as int == self@.col(),
                y < 9,
                x < 9,
                1 <= d <= 10,
                ascending(available_numbers@),
                forall|i: int|
                    0 <= i < available_numbers@.len() ==> available_numbers@[i] < d,
                forall|e: u8|
                    #[trigger] available_numbers@.contains(e) <==> (1 <= e < d && !in_col(
                        g,
                        y as int,
                        x as int,
                        e as int,
                    )),
            decreases 10 - d,
        {
            if !self.col_holds(y as usize, x as usize, d) {
                proof {
                    lemma_push_contains(available_numbers@, d);
                }
                available_numbers.push(d);
            }
            d += 1;
        }
        available_numbers
    }

    /// The digits that the row of the current cell does not hold outside the
    /// cell, in increasing order.
    fn look_for_available_numbers_in_row(&self) -> (r: Vec<u8>)
        requires
            self.wf(),
            self@.missing.len() > 0,
        ensures
            ascending(r@),
            forall|d: u8|
                #[trigger] r@.contains(d) <==> (1 <= d <= 9 && !in_row(
                    self@.grid,
                    self@.row(),
                    self@.col(),
                    d as int,
                )),
    {
        let ghost g = self@.grid;
        let (y, x) = self.missing_cell_coords[self.visited_missing_cell_coords_index];
        let mut available_numbers: Vec<u8> = Vec::new();
        let mut d: u8 = 1;
        while d <= 9
            invariant
                g == self@.grid,
                y as int == self@.row(),
                x as int == self@.col(),
                y < 9,
                x < 9,
                1 <= d <= 10,
                ascending(available_numbers@),
                forall|i: int|
                    0 <= i < available_numbers@.len() ==> available_numbers@[i] < d,
                forall|e: u8|
                    #[trigger] available_numbers@.contains(e) <==> (1 <= e < d && !in_row(
                        g,
                        y as int,
                        x as int,
                        e as int,
                    )),
            decreases 10 - d,
        {
            if !self.row_holds(y as usize, x as usize, d) {
                proof {
                    lemma_push_contains(available_numbers@, d);
                }
                available_numbers.push(d);
            }
            d += 1;
        }
        available_numbers
    }

    /// The digits that neither the row nor the column of the current cell
    /// holds outside the cell, in increasing order.
    fn look_for_available_numbers_in_row_and_col(&self) -> (r: Vec<u8>)
        requires
            self.wf(),
            self@.missing.len() > 0,
        ensures
            ascending(r@),
            forall|d: u8|
                #[trigger] r@.contains(d) <==> (1 <= d <= 9 && !in_row(
                    self@.grid,
                    self@.row(),
                    self@.col(),
                    d as int,
                ) && !in_col(self@.grid, self@.row(), self@.col(), d as int)),
    {
        let col_available_numbers = self.look_for_available_numbers_in_column();
        let row_available_numbers = self.look_for_available_numbers_in_row();
        let mut result: Vec<u8> = Vec::new();
        let mut d: u8 = 1;
        while d <= 9
            invariant
                1 <= d <= 10,
                ascending(result@),
                forall|i: int| 0 <= i < result@.len() ==> result@[i] < d,
                forall|e: u8|
                    #[trigger] result@.contains(e) <==> (1 <= e < d
                        && row_available_numbers@.contains(e) && col_available_numbers@.contains(e)),
            decreases 10 - d,
        {
            if holds_digit(&row_available_numbers, d) && holds_digit(&col_available_numbers, d) {
                proof {
                    lemma_push_contains(result@, d);
                }
                result.push(d);
            }
            d += 1;
        }
        result
    }

    /// Writes `v` into the cell `(r, c)`.
    fn write_cell(&mut self, r: usize, c: usize, v: u8)
        requires
            old(self).wf(),
            r < 9,
            c < 9,
            v <= 9,
        ensures
            final(self).wf(),
            final(self)@ == (SolverView {
                grid: set_cell(old(self)@.grid, r as int, c as int, v),
                ..old(self)@
            }),
    {
        let ghost g = self@.grid;
        let mut row = self.matrix[r];
        row[c] = v;
        self.matrix[r] = row;
        assert(self@.grid =~~= set_cell(g, r as int, c as int, v));
    }

    /// One placement attempt at the current cell: the smallest digit that is
    /// placeable there and larger than what the cell holds is written; where
    /// there is none, the cell is cleared and the cursor steps back twice.
    fn place_number(&mut self)
        requires
            old(self).wf(),
            old(self)@.missing.len() > 0,
        ensures
            final(self).wf(),
            final(self)@ == old(self)@.placed(),
    {
        let ghost s = self@;
        let (y, x) = self.missing_cell_coords[self.visited_missing_cell_coords_index];
        let missing_numbers = self.get_missing_numbers_in_block();
        let available_numbers_in_col_and_row = self.look_for_available_numbers_in_row_and_col();
        let mut placable_numbers: Vec<u8> = Vec::new();
        let mut d: u8 = 1;
        while d <= 9
            invariant
                1 <= d <= 10,
                forall|e: u8|
                    #[trigger] placable_numbers@.contains(e) <==> (1 <= e < d
                        && missing_numbers@.contains(e)
                        && available_numbers_in_col_and_row@.contains(e)),
            decreases 10 - d,
        {
            if holds_digit(&missing_numbers, d) && holds_digit(&available_numbers_in_col_and_row, d) {
                proof {
                    lemma_push_contains(placable_numbers@, d);
                }
                placable_numbers.push(d);
            }
            d += 1;
        }
        let current_cell_number = self.matrix[y as usize][x as usize];
        assert(current_cell_number == s.grid[s.row()][s.col()]);
        let mut n: u8 = current_cell_number + 1;
        while n <= 9
            invariant
                s == self@,
                s == old(self)@,
                self.wf(),
                s.missing.len() > 0,
                y as int == s.row(),
                x as int == s.col(),
                current_cell_number == s.grid[s.row()][s.col()],
                current_cell_number + 1 <= n <= 10,
                first_placeable_from(s.grid, s.row(), s.col(), current_cell_number + 1)
                    == first_placeable_from(s.grid, s.row(), s.col(), n as int),
                forall|e: u8|
                    #[trigger] placable_numbers@.contains(e) <==> placeable(
                        s.grid,
                        s.row(),
                        s.col(),
                        e as int,
                    ),
            decreases 10 - n,
        {
            if holds_digit(&placable_numbers, n) {
                assert(placeable(s.grid, s.row(), s.col(), n as int));
                assert(first_placeable_from(s.grid, s.row(), s.col(), n as int) == n);
                self.write_cell(y as usize, x as usize, n);
                return;
            }
            n += 1;
        }
        assert(first_placeable_from(s.grid, s.row(), s.col(), n as int) == 0);
        self.write_cell(y as usize, x as usize, 0);
        self.move_backward();
        self.move_backward();
    }

    /// Moves the cursor to the next position; refused, with `false`, where
    /// the cursor is on the last one or there is none.
    pub fn move_forward(&mut self) -> (moved: bool)
        requires
            old(self).wf(),
        ensures
            final(self).wf(),
            moved == !old(self)@.at_last(),
            final(self)@ == old(self)@.advanced(),
    {
        if self.missing_cell_coords.len() == 0 || self.missing_cell_coords.len() - 1
            == self.visited_missing_cell_coords_index {
            return false;
        }
        self.visited_missing_cell_coords_index += 1;
        true
    }

    /// Moves the cursor to the previous position; refused, with `false`,
    /// where the cursor is on the first one.
    pub fn move_backward(&mut self) -> (moved: bool)
        requires
            old(self).wf(),
        ensures
            final(self).wf(),
            moved == (old(self)@.cursor != 0),
            final(self)@ == old(self)@.retreated(),
    {
        if self.visited_missing_cell_coords_index != 0 {
            self.visited_missing_cell_coords_index -= 1;
            return true;
        }
        false
    }

    /// Runs the search with at most `budget` placement attempts. Returns the
    /// attempts made and whether the search ended because the cursor could
    /// not move past the last empty cell, rather than on the budget.
    pub fn solve_within(&mut self, budget: u64) -> (r: (u64, bool))
        requires
            old(self).wf(),
        ensures
            final(self).wf(),
            final(self)@ == solved_by(old(self)@, budget as nat).0,
            r.1 == solved_by(old(self)@, budget as nat).1,
            r.0 == solved_by(old(self)@, budget as nat).2,
            r.0 <= budget,
    {
        let ghost s0 = self@;
        if self.missing_cell_coords.len() == 0 {
            return (0, true);
        }
        if budget == 0 {
            return (0, false);
        }
        self.place_number();
        let mut attempts: u64 = 1;
        loop
            invariant
                self.wf(),
                s0 == old(self)@,
                1 <= attempts <= budget,
                s0.missing.len() > 0,
                self@.missing == s0.missing,
                budget > 0,
                solved_by(s0, budget as nat) == ({
                    let (t, f, n) = run(self@, (budget - attempts) as nat);
                    (t, f, (n + attempts) as nat)
                }),
            decreases budget - attempts,
        {
            let ghost before = self@;
            if !self.move_forward() {
                assert(run(before, (budget - attempts) as nat) == (before, true, 0nat));
                return (attempts, true);
            }
            if attempts >= budget {
                assert(run(before, 0) == (before.advanced(), false, 0nat));
                return (attempts, false);
            }
            self.place_number();
            attempts += 1;
        }
    }

    /// Runs the search with the budget of `MAX_ATTEMPTS` placement attempts.
    pub fn solve(&mut self)
        requires
            old(self).wf(),
        ensures
            final(self).wf(),
            final(self)@ == solved_by(old(self)@, MAX_ATTEMPTS as nat).0,
    {
        self.solve_within(MAX_ATTEMPTS);
    }

    /// The grid as it stands.
    pub fn grid(&self) -> (g: [[u8; 9]; 9])
        ensures
            grid_of(g) == self@.grid,
    {
        self.matrix
    }

    /// The positions of the cells that were empty at the start, in the order
    /// in which the search visits them.
    pub fn missing_positions(&self) -> (m: Vec<(u8, u8)>)
        ensures
            m@ == self@.missing,
    {
        let mut m: Vec<(u8, u8)> = Vec::new();
        let mut k: usize = 0;
        while k < self.missing_cell_coords.len()
            invariant
                0 <= k <= self@.missing.len(),
                m@ == self@.missing.subrange(0, k as int),
            decreases self@.missing.len() - k,
        {
            m.push(self.missing_cell_coords[k]);
            k += 1;
            assert(m@ =~= self@.missing.subrange(0, k as int));
        }
        assert(m@ =~= self@.missing);
        m
    }

    /// The index of the position under consideration.
    pub fn cursor(&self) -> (c: usize)
        ensures
            c == self@.cursor,
    {
        self.visited_missing_cell_coords_index
    }

    /// Whether the block of `(r, c)` holds `d` in a cell other than `(r, c)`.
    fn block_holds_elsewhere(&self, r: usize, c: usize, d: u8) -> (b: bool)
        requires
            r < 9,
            c < 9,
        ensures
            b == in_block_elsewhere(self@.grid, r as int, c as int, d as int),
    {
        let ghost g = self@.grid;
        let br: usize = (r / 3) * 3;
        let bc: usize = (c / 3) * 3;
        let mut i: usize = br;
        while i < br + 3
            invariant
                g == grid_of(self.matrix),
                br == band_start(r as int),
                bc == band_start(c as int),
                br + 3 <= 9,
                bc + 3 <= 9,
                br <= i <= br + 3,
                forall|a: int, b: int|
                    br <= a < i && bc <= b < bc + 3 && !(a == r && b == c) ==> g[a][b] != d,
            decreases br + 3 - i,
        {
            let mut j: usize = bc;
            while j < bc + 3
                invariant
                    g == grid_of(self.matrix),
                    br == band_start(r as int),
                    bc == band_start(c as int),
                    br + 3 <= 9,
                    bc + 3 <= 9,
                    br <= i < br + 3,
                    bc <= j <= bc + 3,
                    forall|a: int, b: int|
                        br <= a < i && bc <= b < bc + 3 && !(a == r && b == c) ==> g[a][b] != d,
                    forall|b: int| bc <= b < j && !(i == r && b == c) ==> g[i as int][b] != d,
                decreases bc + 3 - j,
            {
                if !(i == r && j == c) && self.matrix[i][j] == d {
                    assert(g[i as int][j as int] == d);
                    return true;
                }
                j += 1;
            }
            i += 1;
        }
        false
    }

    /// Whether every row, column and block holds each digit 1..=9 exactly
    /// once.
    pub fn is_solved(&self) -> (b: bool)
        ensures
            b == solved_grid(self@.grid),
    {
        let ghost g = self@.grid;
        let mut i: usize = 0;
        while i < 9
            invariant
                g == self@.grid,
                0 <= i <= 9,
                forall|a: int, b: int|
                    0 <= a < i && 0 <= b < 9 ==> 1 <= #[trigger] g[a][b] <= 9 && !in_row(
                        g,
                        a,
                        b,
                        g[a][b] as int,
                    ) && !in_col(g, a, b, g[a][b] as int) && !in_block_elsewhere(
                        g,
                        a,
                        b,
                        g[a][b] as int,
                    ),
            decreases 9 - i,
        {
            let mut j: usize = 0;
            while j < 9
                invariant
                    g == self@.grid,
                    0 <= i < 9,
                    0 <= j <= 9,
                    forall|a: int, b: int|
                        (0 <= a < i && 0 <= b < 9) || (a == i && 0 <= b < j) ==> 1
                            <= #[trigger] g[a][b] <= 9 && !in_row(g, a, b, g[a][b] as int)
                            && !in_col(g, a, b, g[a][b] as int) && !in_block_elsewhere(
                            g,
                            a,
                            b,
                            g[a][b] as int,
                        ),
                decreases 9 - j,
            {
                let d = self.matrix[i][j];
                assert(d == g[i as int][j as int]);
                if d < 1 || d > 9 || self.row_holds(i, j, d) || self.col_holds(i, j, d)
                    || self.block_holds_elsewhere(i, j, d) {
                    return false;
                }
                j += 1;
            }
            i += 1;
        }
        true
    }

    /// The grid as ASCII text: nine lines of digits, " | " after the third
    /// and sixth digit of each line and a space after the others, and a line
    /// of twenty-one dashes after the third and the sixth line.
    pub fn render(&self) -> (out: Vec<u8>)
        requires
            self.wf(),
        ensures
            out@ == grid_text(self@.grid),
    {
        let ghost g = self@.grid;
        let mut out: Vec<u8> = Vec::new();
        let mut i: usize = 0;
        while i < 9
            invariant
                g == self@.grid,
                digits_only(g),
                0 <= i <= 9,
                out@ == rows_text(g, i as int),
            decreases 9 - i,
        {
            let ghost start = out@;
            let mut j: usize = 0;
            while j < 9
                invariant
                    g == self@.grid,
                    digits_only(g),
                    0 <= i < 9,
                    0 <= j <= 9,
                    out@ == start + cells_text(g, i as int, j as int),
                decreases 9 - j,
            {
                let d = self.matrix[i][j];
                assert(d == g[i as int][j as int]);
                out.push(48u8 + d);
                if j == 2 || j == 5 {
                    out.push(32u8);
                    out.push(124u8);
                    out.push(32u8);
                } else {
                    out.push(32u8);
                }
                j += 1;
                assert(out@ =~= start + cells_text(g, i as int, j as int));
            }
            out.push(10u8);
            if i == 2 || i == 5 {
                let ghost before = out@;
                let mut k: usize = 0;
                while k < 21
                    invariant
                        0 <= k <= 21,
                        out@ == before + Seq::new(k as nat, |x: int| 45u8),
                    decreases 21 - k,
                {
                    out.push(45u8);
                    k += 1;
                    assert(out@ =~= before + Seq::new(k as nat, |x: int| 45u8));
                }
                out.push(10u8);
                assert(out@ =~= start + cells_text(g, i as int, 9).push(10u8) + divider());
            } else {
                assert(out@ =~= start + cells_text(g, i as int, 9).push(10u8) + Seq::empty());
            }
            i += 1;
            assert(out@ == rows_text(g, i as int));
        }
        out
    }
}

} // verus!
