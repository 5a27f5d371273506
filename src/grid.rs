//! The mathematical model of a grid and of the rules that placement obeys.
use vstd::prelude::*;

verus! {

/// The grid as a sequence of nine rows of nine digits.
pub open spec fn grid_of(m: [[u8; 9]; 9]) -> Seq<Seq<u8>> {
    Seq::new(9, |i: int| m@[i]@)
}

/// Every cell of the grid holds a digit 0..=9.
pub open spec fn digits_only(g: Seq<Seq<u8>>) -> bool {
    forall|i: int, j: int| 0 <= i < 9 && 0 <= j < 9 ==> #[trigger] g[i][j] <= 9
}

/// The grid has nine rows of nine cells.
pub open spec fn is_square(g: Seq<Seq<u8>>) -> bool {
    g.len() == 9 && forall|i: int| 0 <= i < 9 ==> #[trigger] g[i].len() == 9
}

/// First row (or column) of the band of three that holds index `i`.
pub open spec fn band_start(i: int) -> int {
    (i / 3) * 3
}

/// `d` occurs somewhere in the block of `(r, c)`, the cell itself included.
pub open spec fn in_block(g: Seq<Seq<u8>>, r: int, c: int, d: int) -> bool {
    exists|i: int, j: int|
        band_start(r) <= i < band_start(r) + 3 && band_start(c) <= j < band_start(c) + 3
            && #[trigger] g[i][j] == d
}

/// `d` occurs in row `r` outside column `c`.
pub open spec fn in_row(g: Seq<Seq<u8>>, r: int, c: int, d: int) -> bool {
    exists|j: int| 0 <= j < 9 && j != c && #[trigger] g[r][j] == d
}

/// `d` occurs in column `c` outside row `r`.
pub open spec fn in_col(g: Seq<Seq<u8>>, r: int, c: int, d: int) -> bool {
    exists|i: int| 0 <= i < 9 && i != r && #[trigger] g[i][c] == d
}

/// `d` is a digit that neither the block, nor the rest of the row, nor the
/// rest of the column of `(r, c)` holds.
pub open spec fn placeable(g: Seq<Seq<u8>>, r: int, c: int, d: int) -> bool {
    1 <= d <= 9 && !in_block(g, r, c, d) && !in_row(g, r, c, d) && !in_col(g, r, c, d)
}

/// The smallest placeable digit at `(r, c)` that is at least `d`, or 0 if
/// there is none.
pub open spec fn first_placeable_from(g: Seq<Seq<u8>>, r: int, c: int, d: int) -> int
    decreases 10 - d,
{
    if d > 9 {
        0
    } else if d >= 1 && placeable(g, r, c, d) {
        d
    } else {
        first_placeable_from(g, r, c, d + 1)
    }
}

/// The positions of the empty cells of row `r` among its first `c` columns,
/// left to right.
pub open spec fn zeros_in_row(g: Seq<Seq<u8>>, r: int, c: int) -> Seq<(u8, u8)>
    decreases c,
{
    if c <= 0 {
        Seq::empty()
    } else if g[r][c - 1] == 0 {
        zeros_in_row(g, r, c - 1).push((r as u8, (c - 1) as u8))
    } else {
        zeros_in_row(g, r, c - 1)
    }
}

/// The positions of the empty cells among the first `r` rows, in row-major
/// order.
pub open spec fn zeros_in_rows(g: Seq<Seq<u8>>, r: int) -> Seq<(u8, u8)>
    decreases r,
{
    if r <= 0 {
        Seq::empty()
    } else {
        zeros_in_rows(g, r - 1) + zeros_in_row(g, r - 1, 9)
    }
}

/// The positions of all empty cells of the grid, in row-major order.
pub open spec fn missing_cells(g: Seq<Seq<u8>>) -> Seq<(u8, u8)> {
    zeros_in_rows(g, 9)
}

/// The grid with the cell `(r, c)` set to `v`.
pub open spec fn set_cell(g: Seq<Seq<u8>>, r: int, c: int, v: u8) -> Seq<Seq<u8>> {
    g.update(r, g[r].update(c, v))
}

} // verus!

verus! {

/// The digits of `s` strictly increase.
pub open spec fn ascending(s: Seq<u8>) -> bool {
    forall|i: int, j: int| 0 <= i < j < s.len() ==> s[i] < s[j]
}

/// Whether `d` is one of the digits in `list`.
pub fn holds_digit(list: &Vec<u8>, d: u8) -> (b: bool)
    ensures
        b == list@.contains(d),
{
    let mut k: usize = 0;
    while k < list.len()
        invariant
            0 <= k <= list@.len(),
            forall|i: int| 0 <= i < k ==> list@[i] != d,
        decreases list@.len() - k,
    {
        if list[k] == d {
            return true;
        }
        k += 1;
    }
    false
}

} // verus!

verus! {

/// A digit is in `s.push(d)` exactly when it is `d` or already in `s`.
pub proof fn lemma_push_contains(s: Seq<u8>, d: u8)
    ensures
        forall|e: u8| #[trigger] s.push(d).contains(e) <==> (s.contains(e) || e == d),
{
    assert forall|e: u8| #[trigger] s.push(d).contains(e) <==> (s.contains(e) || e == d) by {
        if s.push(d).contains(e) {
            let k = choose|k: int| 0 <= k < s.push(d).len() && s.push(d)[k] == e;
            if k < s.len() {
                assert(s[k] == e);
            }
        }
        if s.contains(e) {
            let k = choose|k: int| 0 <= k < s.len() && s[k] == e;
            assert(s.push(d)[k] == e);
        }
        if e == d {
            assert(s.push(d)[s.len() as int] == e);
        }
    }
}

} // verus!

verus! {

/// `d` occurs in the block of `(r, c)` in a cell other than `(r, c)`.
pub open spec fn in_block_elsewhere(g: Seq<Seq<u8>>, r: int, c: int, d: int) -> bool {
    exists|i: int, j: int|
        band_start(r) <= i < band_start(r) + 3 && band_start(c) <= j < band_start(c) + 3 && !(i
            == r && j == c) && #[trigger] g[i][j] == d
}

/// Every cell holds a digit 1..=9 that no other cell of its row, column or
/// block holds. As rows, columns and blocks have nine cells each, this is
/// each of them holding every digit 1..=9 exactly once.
pub open spec fn solved_grid(g: Seq<Seq<u8>>) -> bool {
    forall|i: int, j: int|
        0 <= i < 9 && 0 <= j < 9 ==> 1 <= #[trigger] g[i][j] <= 9 && !in_row(g, i, j, g[i][j] as int)
            && !in_col(g, i, j, g[i][j] as int) && !in_block_elsewhere(g, i, j, g[i][j] as int)
}

/// The ASCII text of the cells of row `r` among its first `c` columns: each
/// digit followed by " | " after the third and sixth columns and by a space
/// elsewhere.
pub open spec fn cells_text(g: Seq<Seq<u8>>, r: int, c: int) -> Seq<u8>
    decreases c,
{
    if c <= 0 {
        Seq::empty()
    } else {
        let sep = if c - 1 == 2 || c - 1 == 5 {
            seq![32u8, 124u8, 32u8]
        } else {
            seq![32u8]
        };
        cells_text(g, r, c - 1).push((48 + g[r][c - 1]) as u8) + sep
    }
}

/// A line of twenty-one dashes that separates bands of rows.
pub open spec fn divider() -> Seq<u8> {
    Seq::new(21, |i: int| 45u8).push(10u8)
}

/// The text of the first `r` rows: each row on a line of its own, with a
/// divider after the third and the sixth.
pub open spec fn rows_text(g: Seq<Seq<u8>>, r: int) -> Seq<u8>
    decreases r,
{
    if r <= 0 {
        Seq::empty()
    } else {
        let line = cells_text(g, r - 1, 9).push(10u8);
        let after = if r - 1 == 2 || r - 1 == 5 {
            divider()
        } else {
            Seq::empty()
        };
        rows_text(g, r - 1) + line + after
    }
}

/// The text of the whole grid.
pub open spec fn grid_text(g: Seq<Seq<u8>>) -> Seq<u8> {
    rows_text(g, 9)
}

} // verus!
