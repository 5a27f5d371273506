//! Facts about the search as a whole, proved over the model of the solver.
use vstd::prelude::*;
use crate::grid::{
    band_start, digits_only, first_placeable_from, in_block, in_block_elsewhere, in_col, in_row,
    is_square, placeable, set_cell, solved_grid, zeros_in_row, zeros_in_rows,
};
use crate::matrix::{run, solved_by, SolverView, MAX_ATTEMPTS};

verus! {

/// The position `(i, j)` is one of those in `missing`.
pub open spec fn lists(missing: Seq<(u8, u8)>, i: int, j: int) -> bool {
    exists|k: int| 0 <= k < missing.len() && #[trigger] missing[k] == (i as u8, j as u8)
}

/// The grids `a` and `b` agree on every cell that `missing` does not list.
pub open spec fn agree_outside(a: Seq<Seq<u8>>, b: Seq<Seq<u8>>, missing: Seq<(u8, u8)>) -> bool {
    forall|i: int, j: int|
        0 <= i < 9 && 0 <= j < 9 && !lists(missing, i, j) ==> #[trigger] a[i][j] == b[i][j]
}

/// The digit chosen by a placement attempt is 0 or a placeable digit no
/// smaller than where the search began.
pub proof fn lemma_first_placeable(g: Seq<Seq<u8>>, r: int, c: int, d: int)
    ensures
        0 <= first_placeable_from(g, r, c, d) <= 9,
        first_placeable_from(g, r, c, d) != 0 ==> first_placeable_from(g, r, c, d) >= d
            && placeable(g, r, c, first_placeable_from(g, r, c, d)),
    decreases 10 - d,
{
    if d <= 9 && !(d >= 1 && placeable(g, r, c, d)) {
        lemma_first_placeable(g, r, c, d + 1);
    }
}

/// A placement attempt keeps the solver well formed, keeps its list of
/// positions, and changes no cell but the current one.
pub proof fn lemma_placed_step(s: SolverView)
    requires
        s.wf(),
        s.missing.len() > 0,
    ensures
        s.placed().wf(),
        s.placed().missing == s.missing,
        forall|i: int, j: int|
            0 <= i < 9 && 0 <= j < 9 && !(i == s.row() && j == s.col())
                ==> #[trigger] s.placed().grid[i][j] == s.grid[i][j],
        agree_outside(s.placed().grid, s.grid, s.missing),
{
    let (r, c) = (s.row(), s.col());
    lemma_first_placeable(s.grid, r, c, s.grid[r][c] + 1);
    let t = s.placed();
    assert(s.missing[s.cursor] == (r as u8, c as u8));
    assert(is_square(t.grid));
    assert(digits_only(t.grid));
}

/// The rest of a run keeps the solver well formed, keeps its list of
/// positions, and changes no cell that the list does not name.
pub proof fn lemma_run_step(s: SolverView, remaining: nat)
    requires
        s.wf(),
        s.missing.len() > 0,
    ensures
        run(s, remaining).0.wf(),
        run(s, remaining).0.missing == s.missing,
        agree_outside(run(s, remaining).0.grid, s.grid, s.missing),
        run(s, remaining).2 <= remaining,
    decreases remaining,
{
    if !s.at_last() && remaining > 0 {
        let a = s.advanced();
        lemma_placed_step(a);
        lemma_run_step(a.placed(), (remaining - 1) as nat);
    }
}

/// Cells that were not empty when the solver started are never changed: a
/// run leaves every position that the list does not name as it found it.
pub proof fn given_cells_preserved(s: SolverView, budget: nat)
    requires
        s.wf(),
    ensures
        agree_outside(solved_by(s, budget).0.grid, s.grid, s.missing),
        solved_by(s, budget).0.missing == s.missing,
        solved_by(s, budget).0.wf(),
{
    if s.missing.len() > 0 && budget > 0 {
        lemma_placed_step(s);
        lemma_run_step(s.placed(), (budget - 1) as nat);
    }
}

/// The outcome of a run, its final state, how it ended and the attempts it
/// made, is a function of the starting state and the budget alone: two runs
/// from equal states agree in all three.
pub proof fn runs_are_deterministic(a: SolverView, b: SolverView, budget: nat)
    requires
        a == b,
    ensures
        solved_by(a, budget) == solved_by(b, budget),
{
}

/// Each value a placement attempt writes into a cell is larger than the one
/// the cell held, and placeable there; the only other value it writes is 0,
/// which clears the cell.
pub proof fn placement_only_increases(s: SolverView)
    requires
        s.wf(),
        s.missing.len() > 0,
    ensures
        ({
            let v = s.placed().grid[s.row()][s.col()];
            v == 0 || (v > s.grid[s.row()][s.col()] && placeable(
                s.grid,
                s.row(),
                s.col(),
                v as int,
            ))
        }),
{
    lemma_first_placeable(s.grid, s.row(), s.col(), s.grid[s.row()][s.col()] + 1);
}

/// A run makes at most as many placement attempts as its budget allows.
pub proof fn attempts_within_budget(s: SolverView, budget: nat)
    requires
        s.wf(),
    ensures
        solved_by(s, budget).2 <= budget,
        solved_by(s, MAX_ATTEMPTS as nat).2 <= 100_000,
{
    if s.missing.len() > 0 && budget > 0 {
        lemma_placed_step(s);
        lemma_run_step(s.placed(), (budget - 1) as nat);
    }
    if s.missing.len() > 0 {
        lemma_placed_step(s);
        lemma_run_step(s.placed(), (MAX_ATTEMPTS - 1) as nat);
    }
}

} // verus!

verus! {

/// Position `a` comes before position `b` in row-major order.
pub open spec fn before(a: (u8, u8), b: (u8, u8)) -> bool {
    a.0 < b.0 || (a.0 == b.0 && a.1 < b.1)
}

/// The positions of `m` strictly increase in row-major order.
pub open spec fn row_major(m: Seq<(u8, u8)>) -> bool {
    forall|i: int, j: int| 0 <= i < j < m.len() ==> before(#[trigger] m[i], #[trigger] m[j])
}

/// The empty cells of the first `c` columns of row `r` are listed left to
/// right, each once, and nothing else is.
pub proof fn lemma_zeros_in_row(g: Seq<Seq<u8>>, r: int, c: int)
    requires
        is_square(g),
        0 <= r < 9,
        0 <= c <= 9,
    ensures
        forall|k: int|
            0 <= k < zeros_in_row(g, r, c).len() ==> (#[trigger] zeros_in_row(g, r, c)[k]).0 == r
                && zeros_in_row(g, r, c)[k].1 < c && g[r][zeros_in_row(g, r, c)[k].1 as int]
                == 0,
        row_major(zeros_in_row(g, r, c)),
        forall|j: int| 0 <= j < c && #[trigger] g[r][j] == 0 ==> lists(zeros_in_row(g, r, c), r, j),
    decreases c,
{
    if c > 0 {
        lemma_zeros_in_row(g, r, c - 1);
        let z = zeros_in_row(g, r, c - 1);
        if g[r][c - 1] == 0 {
            let z2 = z.push((r as u8, (c - 1) as u8));
            assert(z2 == zeros_in_row(g, r, c));
            assert forall|j: int| 0 <= j < c && #[trigger] g[r][j] == 0 implies lists(z2, r, j) by {
                if j == c - 1 {
                    assert(z2[z.len() as int] == (r as u8, j as u8));
                } else {
                    assert(lists(z, r, j));
                    let k = choose|k: int| 0 <= k < z.len() && #[trigger] z[k] == (r as u8, j as u8);
                    assert(z2[k] == (r as u8, j as u8));
                }
            }
        } else {
            assert forall|j: int| 0 <= j < c && #[trigger] g[r][j] == 0 implies lists(
                zeros_in_row(g, r, c),
                r,
                j,
            ) by {
                assert(lists(z, r, j));
            }
        }
    }
}

/// The empty cells of the first `r` rows are listed in row-major order,
/// each once, and nothing else is.
pub proof fn lemma_zeros_in_rows(g: Seq<Seq<u8>>, r: int)
    requires
        is_square(g),
        0 <= r <= 9,
    ensures
        forall|k: int|
            0 <= k < zeros_in_rows(g, r).len() ==> (#[trigger] zeros_in_rows(g, r)[k]).0 < r
                && zeros_in_rows(g, r)[k].1 < 9 && g[zeros_in_rows(g, r)[k].0 as int][zeros_in_rows(
                g,
                r,
            )[k].1 as int] == 0,
        row_major(zeros_in_rows(g, r)),
        forall|i: int, j: int|
            0 <= i < r && 0 <= j < 9 && #[trigger] g[i][j] == 0 ==> lists(zeros_in_rows(g, r), i, j),
    decreases r,
{
    if r > 0 {
        lemma_zeros_in_rows(g, r - 1);
        lemma_zeros_in_row(g, r - 1, 9);
        let a = zeros_in_rows(g, r - 1);
        let b = zeros_in_row(g, r - 1, 9);
        let z = a + b;
        assert(z == zeros_in_rows(g, r));
        assert forall|k: int| 0 <= k < z.len() implies (#[trigger] z[k]).0 < r && z[k].1 < 9
            && g[z[k].0 as int][z[k].1 as int] == 0 by {
            if k >= a.len() {
                assert(z[k] == b[k - a.len()]);
            }
        }
        assert forall|i: int, j: int| 0 <= i < j < z.len() implies before(
            #[trigger] z[i],
            #[trigger] z[j],
        ) by {
            if j < a.len() {
            } else if i >= a.len() {
                assert(z[i] == b[i - a.len()]);
                assert(z[j] == b[j - a.len()]);
            } else {
                assert(z[j] == b[j - a.len()]);
            }
        }
        assert forall|i: int, j: int| 0 <= i < r && 0 <= j < 9 && #[trigger] g[i][j] == 0 implies lists(
            z,
            i,
            j,
        ) by {
            if i < r - 1 {
                let k = choose|k: int| 0 <= k < a.len() && #[trigger] a[k] == (i as u8, j as u8);
                assert(z[k] == a[k]);
            } else {
                assert(lists(b, i, j));
                let k = choose|k: int| 0 <= k < b.len() && #[trigger] b[k] == (i as u8, j as u8);
                assert(z[a.len() + k] == b[k]);
            }
        }
    }
}

} // verus!

verus! {

/// No digit of the grid is repeated in the row, column or block of its
/// cell; empty cells are not counted.
pub open spec fn consistent(g: Seq<Seq<u8>>) -> bool {
    forall|i: int, j: int|
        0 <= i < 9 && 0 <= j < 9 && #[trigger] g[i][j] != 0 ==> !in_row(g, i, j, g[i][j] as int)
            && !in_col(g, i, j, g[i][j] as int) && !in_block_elsewhere(g, i, j, g[i][j] as int)
}

/// Two indices in the same band of three have the same band start.
pub proof fn lemma_band(a: int, b: int)
    requires
        0 <= a < 9,
        band_start(a) <= b < band_start(a) + 3,
    ensures
        band_start(b) == band_start(a),
        0 <= band_start(a) <= 6,
        band_start(a) <= a < band_start(a) + 3,
{
}

/// Writing 0, or a digit placeable there, into a cell of a consistent grid
/// leaves it consistent.
pub proof fn lemma_consistent_set(g: Seq<Seq<u8>>, r: int, c: int, d: u8)
    requires
        is_square(g),
        consistent(g),
        0 <= r < 9,
        0 <= c < 9,
        d == 0 || placeable(g, r, c, d as int),
    ensures
        consistent(set_cell(g, r, c, d)),
{
    let h = set_cell(g, r, c, d);
    assert forall|i: int, j: int| 0 <= i < 9 && 0 <= j < 9 && #[trigger] h[i][j] != 0 implies !in_row(
        h,
        i,
        j,
        h[i][j] as int,
    ) && !in_col(h, i, j, h[i][j] as int) && !in_block_elsewhere(h, i, j, h[i][j] as int) by {
        let w = h[i][j];
        if in_row(h, i, j, w as int) {
            let b = choose|b: int| 0 <= b < 9 && b != j && #[trigger] h[i][b] == w;
            if i == r && j == c {
                assert(g[r][b] == d);
                assert(in_row(g, r, c, d as int));
            } else if i == r && b == c {
                assert(g[r][j] == d);
                assert(in_row(g, r, c, d as int));
            } else {
                assert(g[i][b] == w && g[i][j] == w);
                assert(in_row(g, i, j, w as int));
            }
        }
        if in_col(h, i, j, w as int) {
            let a = choose|a: int| 0 <= a < 9 && a != i && #[trigger] h[a][j] == w;
            if i == r && j == c {
                assert(g[a][c] == d);
                assert(in_col(g, r, c, d as int));
            } else if a == r && j == c {
                assert(g[i][c] == d);
                assert(in_col(g, r, c, d as int));
            } else {
                assert(g[a][j] == w && g[i][j] == w);
                assert(in_col(g, i, j, w as int));
            }
        }
        if in_block_elsewhere(h, i, j, w as int) {
            let (a, b) = choose|a: int, b: int|
                band_start(i) <= a < band_start(i) + 3 && band_start(j) <= b < band_start(j) + 3
                    && !(a == i && b == j) && #[trigger] h[a][b] == w;
            lemma_band(i, a);
            lemma_band(j, b);
            if i == r && j == c {
                assert(g[a][b] == d);
                assert(in_block(g, r, c, d as int));
            } else if a == r && b == c {
                assert(g[i][j] == d);
                assert(in_block(g, r, c, d as int));
            } else {
                assert(g[a][b] == w && g[i][j] == w);
                assert(in_block_elsewhere(g, i, j, w as int));
            }
        }
    }
}

} // verus!

verus! {

/// The state of a run just after a placement attempt that keeps the search
/// sound: the grid is consistent, the cells the list does not name are
/// filled, and so is every listed cell up to the cursor.
pub open spec fn sound(s: SolverView) -> bool {
    &&& s.wf()
    &&& s.missing.len() > 0
    &&& row_major(s.missing)
    &&& consistent(s.grid)
    &&& forall|i: int, j: int|
        0 <= i < 9 && 0 <= j < 9 && !lists(s.missing, i, j) ==> #[trigger] s.grid[i][j] != 0
    &&& forall|k: int|
        0 <= k <= s.cursor ==> s.grid[(#[trigger] s.missing[k]).0 as int][s.missing[k].1 as int]
            != 0
}

/// Advancing and then attempting a placement keeps a run sound.
pub proof fn lemma_sound_step(s: SolverView)
    requires
        sound(s),
        !s.at_last(),
    ensures
        sound(s.advanced().placed()),
{
    let a = s.advanced();
    let t = a.placed();
    let (r, c) = (a.row(), a.col());
    lemma_placed_step(a);
    lemma_first_placeable(a.grid, r, c, a.grid[r][c] + 1);
    let d = first_placeable_from(a.grid, r, c, a.grid[r][c] + 1);
    assert(a.missing[a.cursor] == (r as u8, c as u8));
    if d != 0 {
        lemma_consistent_set(a.grid, r, c, d as u8);
    } else {
        lemma_consistent_set(a.grid, r, c, 0);
    }
    assert forall|i: int, j: int|
        0 <= i < 9 && 0 <= j < 9 && !lists(t.missing, i, j) implies #[trigger] t.grid[i][j] != 0 by {
        assert(!(i == r && j == c));
    }
    assert forall|k: int| 0 <= k <= t.cursor implies t.grid[(#[trigger] t.missing[k]).0 as int][t.missing[k].1 as int]
        != 0 by {
        if k != a.cursor {
            if k < a.cursor {
                assert(before(a.missing[k], a.missing[a.cursor]));
            } else {
                assert(before(a.missing[a.cursor], a.missing[k]));
            }
        }
    }
}

/// A sound run that ends because the cursor cannot advance leaves a solved
/// grid.
pub proof fn lemma_sound_run(s: SolverView, remaining: nat)
    requires
        sound(s),
    ensures
        run(s, remaining).1 ==> solved_grid(run(s, remaining).0.grid),
    decreases remaining,
{
    if s.at_last() {
        let g = s.grid;
        assert forall|i: int, j: int| 0 <= i < 9 && 0 <= j < 9 implies #[trigger] g[i][j] != 0 by {
            if lists(s.missing, i, j) {
                let k = choose|k: int| 0 <= k < s.missing.len() && #[trigger] s.missing[k] == (i as u8, j as u8);
                assert(g[s.missing[k].0 as int][s.missing[k].1 as int] != 0);
            }
        }
        assert forall|i: int, j: int| 0 <= i < 9 && 0 <= j < 9 implies 1 <= #[trigger] g[i][j] <= 9
            && !in_row(g, i, j, g[i][j] as int) && !in_col(g, i, j, g[i][j] as int)
            && !in_block_elsewhere(g, i, j, g[i][j] as int) by {
            assert(g[i][j] != 0);
        }
    } else if remaining > 0 {
        lemma_sound_step(s);
        lemma_sound_run(s.advanced().placed(), (remaining - 1) as nat);
    }
}

/// Some solved grid agrees with `g` on every filled cell of `g`.
pub open spec fn solvable(g: Seq<Seq<u8>>) -> bool {
    exists|h: Seq<Seq<u8>>|
        #[trigger] is_square(h) && solved_grid(h) && forall|i: int, j: int|
            0 <= i < 9 && 0 <= j < 9 && #[trigger] g[i][j] != 0 ==> h[i][j] == g[i][j]
}

/// Where some digit at least `d` is placeable, the search from `d` finds one.
pub proof fn lemma_first_placeable_found(g: Seq<Seq<u8>>, r: int, c: int, d: int, e: int)
    requires
        d <= e,
        placeable(g, r, c, e),
    ensures
        first_placeable_from(g, r, c, d) != 0,
    decreases e - d,
{
    if d < e && !(d >= 1 && placeable(g, r, c, d)) {
        lemma_first_placeable_found(g, r, c, d + 1, e);
    }
}

/// For a solvable grid, a run from the start that ends because the cursor
/// cannot advance, and not on the budget, leaves a solved grid: every row,
/// column and block holds each digit 1..=9 exactly once.
pub proof fn finished_runs_solve(g: Seq<Seq<u8>>, budget: nat)
    requires
        is_square(g),
        digits_only(g),
        solvable(g),
    ensures
        solved_by(SolverView::initial(g), budget).1 ==> solved_grid(
            solved_by(SolverView::initial(g), budget).0.grid,
        ),
{
    let s = SolverView::initial(g);
    let h = choose|h: Seq<Seq<u8>>|
        #[trigger] is_square(h) && solved_grid(h) && forall|i: int, j: int|
            0 <= i < 9 && 0 <= j < 9 && #[trigger] g[i][j] != 0 ==> h[i][j] == g[i][j];
    lemma_zeros_in_rows(g, 9);
    assert forall|i: int, j: int| 0 <= i < 9 && 0 <= j < 9 && #[trigger] g[i][j] != 0 implies !in_row(
        g,
        i,
        j,
        g[i][j] as int,
    ) && !in_col(g, i, j, g[i][j] as int) && !in_block_elsewhere(g, i, j, g[i][j] as int) by {
        let w = g[i][j];
        assert(h[i][j] == w);
        if in_row(g, i, j, w as int) {
            let b = choose|b: int| 0 <= b < 9 && b != j && #[trigger] g[i][b] == w;
            assert(h[i][b] == w);
            assert(in_row(h, i, j, w as int));
        }
        if in_col(g, i, j, w as int) {
            let a = choose|a: int| 0 <= a < 9 && a != i && #[trigger] g[a][j] == w;
            assert(h[a][j] == w);
            assert(in_col(h, i, j, w as int));
        }
        if in_block_elsewhere(g, i, j, w as int) {
            let (a, b) = choose|a: int, b: int|
                band_start(i) <= a < band_start(i) + 3 && band_start(j) <= b < band_start(j) + 3
                    && !(a == i && b == j) && #[trigger] g[a][b] == w;
            lemma_band(i, a);
            lemma_band(j, b);
            assert(h[a][b] == w);
            assert(in_block_elsewhere(h, i, j, w as int));
        }
    }
    assert(consistent(g));
    if s.missing.len() == 0 {
        assert forall|i: int, j: int| 0 <= i < 9 && 0 <= j < 9 implies 1 <= #[trigger] g[i][j] <= 9
            && !in_row(g, i, j, g[i][j] as int) && !in_col(g, i, j, g[i][j] as int)
            && !in_block_elsewhere(g, i, j, g[i][j] as int) by {
            if g[i][j] == 0 {
                assert(lists(s.missing, i, j));
            }
        }
    } else if budget > 0 {
        assert(s.wf());
        let (r, c) = (s.row(), s.col());
        assert(s.missing[0] == (r as u8, c as u8));
        assert(g[r][c] == 0);
        let e = h[r][c];
        assert(1 <= e <= 9);
        if in_row(g, r, c, e as int) {
            let b = choose|b: int| 0 <= b < 9 && b != c && #[trigger] g[r][b] == e;
            assert(h[r][b] == e);
            assert(in_row(h, r, c, e as int));
        }
        if in_col(g, r, c, e as int) {
            let a = choose|a: int| 0 <= a < 9 && a != r && #[trigger] g[a][c] == e;
            assert(h[a][c] == e);
            assert(in_col(h, r, c, e as int));
        }
        if in_block(g, r, c, e as int) {
            let (a, b) = choose|a: int, b: int|
                band_start(r) <= a < band_start(r) + 3 && band_start(c) <= b < band_start(c) + 3
                    && #[trigger] g[a][b] == e;
            assert(h[a][b] == e);
            assert(in_block_elsewhere(h, r, c, e as int));
        }
        assert(placeable(g, r, c, e as int));
        lemma_first_placeable_found(g, r, c, g[r][c] + 1, e as int);
        lemma_first_placeable(g, r, c, g[r][c] + 1);
        let d = first_placeable_from(g, r, c, g[r][c] + 1);
        lemma_consistent_set(g, r, c, d as u8);
        lemma_placed_step(s);
        let t = s.placed();
        assert forall|i: int, j: int|
            0 <= i < 9 && 0 <= j < 9 && !lists(t.missing, i, j) implies #[trigger] t.grid[i][j] != 0 by {
            assert(!(i == r && j == c));
        }
        assert(sound(t));
        lemma_sound_run(t, (budget - 1) as nat);
    }
}

} // verus!
