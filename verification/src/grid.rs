//! The dense cell grid backing a board, and the counting arguments behind
//! the board's capacity: a board of radius `R` holds exactly
//! `1 + 3R(R + 1)` cells.
//!
//! Cells live in a `(2R + 1) x (2R + 1)` table indexed by
//! `(x + R) * (2R + 1) + (y + R)`; entries outside the hexagon stay empty
//! forever.

use vstd::prelude::*;
use vstd::arithmetic::div_mod::lemma_fundamental_div_mod_converse;
use crate::game_data::Stone;
use crate::hex::{radius_ok, Hex};

verus! {

/// Side length of the square table that holds the board of radius `r`.
pub open spec fn dim(radius: int) -> int {
    2 * radius + 1
}

/// Number of cells of the board of radius `r`.
pub open spec fn spec_cell_count(radius: int) -> int {
    1 + 3 * radius * (radius + 1)
}

/// Flat table index of the cell `(x, y)`.
pub open spec fn index_of(radius: int, x: int, y: int) -> int {
    (x + radius) * dim(radius) + (y + radius)
}

/// `x` coordinate of the cell at flat index `i`.
pub open spec fn coord_x(radius: int, i: int) -> int {
    i / dim(radius) - radius
}

/// `y` coordinate of the cell at flat index `i`.
pub open spec fn coord_y(radius: int, i: int) -> int {
    i % dim(radius) - radius
}

/// Whether `(x, y)` lies on the board of radius `r`.
pub open spec fn in_hex(radius: int, x: int, y: int) -> bool {
    &&& -radius <= x <= radius
    &&& -radius <= y <= radius
    &&& -radius <= -x - y <= radius
}

/// Whether the cell at flat index `i` lies on the board.
pub open spec fn idx_in_hex(radius: int, i: int) -> bool {
    in_hex(radius, coord_x(radius, i), coord_y(radius, i))
}

/// Index and coordinates are inverse to each other on the square table.
pub proof fn lemma_index_coord(radius: int, x: int, y: int)
    requires
        radius >= 1,
        -radius <= x <= radius,
        -radius <= y <= radius,
    ensures
        0 <= index_of(radius, x, y) < dim(radius) * dim(radius),
        coord_x(radius, index_of(radius, x, y)) == x,
        coord_y(radius, index_of(radius, x, y)) == y,
{
    let d = dim(radius);
    let q = x + radius;
    let r = y + radius;
    assert(0 <= q < d);
    assert(0 <= r < d);
    assert(index_of(radius, x, y) == q * d + r);
    lemma_fundamental_div_mod_converse(q * d + r, d, q, r);
    assert(q * d + r < d * d) by (nonlinear_arith)
        requires
            0 <= q < d,
            0 <= r < d,
    ;
    assert(q * d + r >= 0) by (nonlinear_arith)
        requires
            0 <= q,
            0 <= r,
            d > 0,
    ;
}

/// Two distinct cells of the square table have distinct indices.
pub proof fn lemma_index_injective(radius: int, x1: int, y1: int, x2: int, y2: int)
    requires
        radius >= 1,
        -radius <= x1 <= radius,
        -radius <= y1 <= radius,
        -radius <= x2 <= radius,
        -radius <= y2 <= radius,
        index_of(radius, x1, y1) == index_of(radius, x2, y2),
    ensures
        x1 == x2 && y1 == y2,
{
    lemma_index_coord(radius, x1, y1);
    lemma_index_coord(radius, x2, y2);
}

/// Flat table index of an in-bounds cell.
pub fn cell_index(h: Hex, radius: usize) -> (r: usize)
    requires
        radius_ok(radius as int),
        h.in_bounds(radius as int),
    ensures
        r as int == index_of(radius as int, h.x as int, h.y as int),
        r < dim(radius as int) * dim(radius as int),
{
    proof {
        lemma_index_coord(radius as int, h.x as int, h.y as int);
        assert((h.x as int + radius as int) * dim(radius as int) + (h.y as int + radius as int)
            < 400060002) by (nonlinear_arith)
            requires
                1 <= radius as int <= 10000,
                -(radius as int) <= h.x as int <= radius as int,
                -(radius as int) <= h.y as int <= radius as int,
        ;
        assert(dim(radius as int) * dim(radius as int) <= 400040001) by (nonlinear_arith)
            requires
                1 <= radius as int <= 10000,
        ;
    }
    let d: usize = 2 * radius + 1;
    let qx: usize = (h.x as i64 + radius as i64) as usize;
    let qy: usize = (h.y as i64 + radius as i64) as usize;
    qx * d + qy
}

/// Number of cells of the board of radius `radius`, as a machine integer.
pub fn cell_count(radius: usize) -> (r: usize)
    requires
        radius_ok(radius as int),
    ensures
        r as int == spec_cell_count(radius as int),
{
    proof {
        assert((3 * (radius as int)) * ((radius as int) + 1) <= 300030000) by (nonlinear_arith)
            requires
                1 <= radius as int <= 10000,
        ;
    }
    let triple: usize = 3 * radius;
    1 + triple * (radius + 1)
}

/// Coordinates and index are inverse also when starting from the index.
pub proof fn lemma_coord_index(radius: int, i: int)
    requires
        radius >= 1,
        0 <= i < dim(radius) * dim(radius),
    ensures
        0 <= coord_x(radius, i) + radius < dim(radius),
        0 <= coord_y(radius, i) + radius < dim(radius),
        index_of(radius, coord_x(radius, i), coord_y(radius, i)) == i,
{
    let d = dim(radius);
    vstd::arithmetic::div_mod::lemma_fundamental_div_mod(i, d);
    vstd::arithmetic::div_mod::lemma_mod_bound(i, d);
    assert(0 <= i / d < d) by (nonlinear_arith)
        requires
            d > 0,
            0 <= i < d * d,
            i == d * (i / d) + (i % d),
            0 <= i % d < d,
    ;
    assert((i / d) * d == d * (i / d)) by (nonlinear_arith);
}

/// A table that holds fewer stones than the hexagon has cells has an empty
/// cell on the hexagon.
pub proof fn lemma_exists_empty(radius: int, s: Seq<Option<Stone>>, n: int)
    requires
        forall|i: int| 0 <= i < s.len() && #[trigger] s[i] is Some ==> idx_in_hex(radius, i),
        n <= s.len(),
        occ_count(s, n) < hex_count(radius, n),
    ensures
        exists|i: int| 0 <= i < n && idx_in_hex(radius, i) && s[i] is None,
    decreases n,
{
    if n > 0 {
        if idx_in_hex(radius, n - 1) && s[n - 1] is None {
        } else {
            lemma_exists_empty(radius, s, n - 1);
        }
    }
}

/// Bounds of the cell count over the accepted radii.
pub proof fn lemma_cell_count_bounds(radius: int)
    requires
        1 <= radius <= 10000,
    ensures
        7 <= spec_cell_count(radius) <= 300030001,
{
    assert(7 <= 1 + 3 * radius * (radius + 1) <= 300030001) by (nonlinear_arith)
        requires
            1 <= radius <= 10000,
    ;
}

/// How many of the first `n` table entries hold a stone.
pub open spec fn occ_count(s: Seq<Option<Stone>>, n: int) -> int
    decreases n,
{
    if n <= 0 {
        0
    } else {
        occ_count(s, n - 1) + (if s[n - 1] is Some {
            1int
        } else {
            0int
        })
    }
}

/// The occupied count never exceeds the count of entries considered.
pub proof fn lemma_occ_count_bound(s: Seq<Option<Stone>>, n: int)
    ensures
        0 <= occ_count(s, n) <= (if n >= 0 {
            n
        } else {
            0
        }),
    decreases n,
{
    if n > 0 {
        lemma_occ_count_bound(s, n - 1);
    }
}

/// Replacing one empty entry by a stone raises the occupied count by one.
pub proof fn lemma_occ_count_fill(s: Seq<Option<Stone>>, i: int, v: Stone, n: int)
    requires
        0 <= i < s.len(),
        s[i] is None,
        n <= s.len(),
    ensures
        occ_count(s.update(i, Some(v)), n) == occ_count(s, n) + (if i < n {
            1int
        } else {
            0int
        }),
    decreases n,
{
    if n > 0 {
        lemma_occ_count_fill(s, i, v, n - 1);
    }
}

/// Replacing a stone by a stone leaves the occupied count unchanged.
pub proof fn lemma_occ_count_replace(s: Seq<Option<Stone>>, i: int, v: Stone, n: int)
    requires
        0 <= i < s.len(),
        s[i] is Some,
        n <= s.len(),
    ensures
        occ_count(s.update(i, Some(v)), n) == occ_count(s, n),
    decreases n,
{
    if n > 0 {
        lemma_occ_count_replace(s, i, v, n - 1);
    }
}

/// How many of the first `n` table entries lie on the hexagonal board.
pub open spec fn hex_count(radius: int, n: int) -> int
    decreases n,
{
    if n <= 0 {
        0
    } else {
        hex_count(radius, n - 1) + (if idx_in_hex(radius, n - 1) {
            1int
        } else {
            0int
        })
    }
}

/// A table whose stones all sit on hexagon cells holds at most as many
/// stones as the hexagon has cells.
pub proof fn lemma_occ_le_hex(radius: int, s: Seq<Option<Stone>>, n: int)
    requires
        forall|i: int| 0 <= i < s.len() && #[trigger] s[i] is Some ==> idx_in_hex(radius, i),
        n <= s.len(),
    ensures
        occ_count(s, n) <= hex_count(radius, n),
    decreases n,
{
    if n > 0 {
        lemma_occ_le_hex(radius, s, n - 1);
        lemma_occ_count_bound(s, n - 1);
        if s[n - 1] is Some {
            assert(idx_in_hex(radius, n - 1));
        } else {
            assert(hex_count(radius, n - 1) >= occ_count(s, n - 1)) by {
            }
            assert(hex_count(radius, n) >= hex_count(radius, n - 1)) by {
            }
        }
    }
}

/// How many cells of one table row, up to column `j`, lie on the board:
/// rows with `x >= 0` fill their first `dim - x` columns, rows with
/// `x < 0` fill everything from column `-x` on.
pub open spec fn row_hex_cells(radius: int, x: int, j: int) -> int {
    if x >= 0 {
        if j <= dim(radius) - x {
            j
        } else {
            dim(radius) - x
        }
    } else {
        if j + x >= 0 {
            j + x
        } else {
            0
        }
    }
}

/// The in-hexagon cells of row `x` up to column `j` number `row_hex_cells`.
pub proof fn lemma_row_count(radius: int, x: int, j: int)
    requires
        radius >= 1,
        -radius <= x <= radius,
        0 <= j <= dim(radius),
    ensures
        hex_count(radius, (x + radius) * dim(radius) + j) == hex_count(
            radius,
            (x + radius) * dim(radius),
        ) + row_hex_cells(radius, x, j),
    decreases j,
{
    let d = dim(radius);
    let a = x + radius;
    if j > 0 {
        lemma_row_count(radius, x, j - 1);
        let i = a * d + j - 1;
        lemma_fundamental_div_mod_converse(i, d, a, j - 1);
        assert(coord_x(radius, i) == x);
        assert(coord_y(radius, i) == j - 1 - radius);
        let y = j - 1 - radius;
        assert(idx_in_hex(radius, i) == in_hex(radius, x, y));
    }
}

/// Running total of full rows: the cells of the first `a` rows that lie on
/// the board.
pub open spec fn rows_total(radius: int, a: int) -> int
    decreases a,
{
    if a <= 0 {
        0
    } else {
        rows_total(radius, a - 1) + row_hex_cells(radius, a - 1 - radius, dim(radius))
    }
}

/// The hexagon count at a row boundary is the running row total.
pub proof fn lemma_rows_total(radius: int, a: int)
    requires
        radius >= 1,
        0 <= a <= dim(radius),
    ensures
        hex_count(radius, a * dim(radius)) == rows_total(radius, a),
    decreases a,
{
    if a > 0 {
        lemma_rows_total(radius, a - 1);
        lemma_row_count(radius, a - 1 - radius, dim(radius));
        let d = dim(radius);
        assert(rows_total(radius, a) == rows_total(radius, a - 1) + row_hex_cells(
            radius,
            a - 1 - radius,
            d,
        ));
        assert((a - 1 - radius + radius) * d == (a - 1) * d);
        assert((a - 1) * d + d == a * d) by (nonlinear_arith);
        assert(hex_count(radius, (a - 1) * d + d) == hex_count(radius, (a - 1) * d)
            + row_hex_cells(radius, a - 1 - radius, d));
    } else {
        assert(a * dim(radius) == 0) by (nonlinear_arith)
            requires
                a == 0,
        ;
    }
}

/// Closed form of the row totals over the lower half of the table.
pub proof fn lemma_rows_total_low(radius: int, a: int)
    requires
        radius >= 1,
        0 <= a <= radius + 1,
    ensures
        2 * rows_total(radius, a) == 2 * a * (radius + 1) + a * (a - 1),
    decreases a,
{
    if a > 0 {
        lemma_rows_total_low(radius, a - 1);
        assert(row_hex_cells(radius, a - 1 - radius, dim(radius)) == radius + a);
        assert(rows_total(radius, a) == rows_total(radius, a - 1) + row_hex_cells(
            radius,
            a - 1 - radius,
            dim(radius),
        ));
        assert(2 * (a - 1) * (radius + 1) + (a - 1) * (a - 2) + 2 * (radius + a) == 2 * a * (radius
            + 1) + a * (a - 1)) by (nonlinear_arith);
    } else {
        assert(2 * a * (radius + 1) + a * (a - 1) == 0) by (nonlinear_arith)
            requires
                a == 0,
        ;
    }
}

/// Closed form of the row totals over the upper half of the table.
pub proof fn lemma_rows_total_high(radius: int, a: int)
    requires
        radius >= 1,
        radius + 1 <= a <= dim(radius),
    ensures
        2 * rows_total(radius, a) == 2 * a * (radius + 1) + a * (a - 1) - 2 * (a - radius - 1) * (a
            - radius),
    decreases a,
{
    if a == radius + 1 {
        lemma_rows_total_low(radius, a);
        assert(2 * (a - radius - 1) * (a - radius) == 0) by (nonlinear_arith)
            requires
                a == radius + 1,
        ;
    } else {
        lemma_rows_total_high(radius, a - 1);
        assert(row_hex_cells(radius, a - 1 - radius, dim(radius)) == dim(radius) - (a - 1
            - radius));
        assert(2 * (a - 1) * (radius + 1) + (a - 1) * (a - 2) - 2 * (a - 1 - radius - 1) * (a - 1
            - radius) + 2 * (dim(radius) - (a - 1 - radius)) == 2 * a * (radius + 1) + a * (a - 1)
            - 2 * (a - radius - 1) * (a - radius)) by (nonlinear_arith);
    }
}

/// The whole table holds exactly `1 + 3R(R + 1)` board cells.
pub proof fn lemma_hex_count_total(radius: int)
    requires
        radius >= 1,
    ensures
        hex_count(radius, dim(radius) * dim(radius)) == spec_cell_count(radius),
{
    let d = dim(radius);
    lemma_rows_total(radius, d);
    lemma_rows_total_high(radius, d);
    assert(2 * d * (radius + 1) + d * (d - 1) - 2 * (d - radius - 1) * (d - radius) == 2 * (1 + 3
        * radius * (radius + 1))) by (nonlinear_arith)
        requires
            d == 2 * radius + 1,
    ;
}

} // verus!
