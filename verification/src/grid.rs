//! Pixel layout of the cell grid: the largest square cell size that fits
//! the container, a centered origin, the center point of each cell, and the
//! hit test that inverts the layout.

use vstd::arithmetic::div_mod::lemma_fundamental_div_mod_converse;
use vstd::prelude::*;

use crate::board::MAX_DIM;

verus! {

/// Upper bound on a container dimension in pixels; window sizes fit far
/// below it.
pub const MAX_PIXEL: usize = 1073741824;

/// The derived layout of a `rows x cols` grid inside a pixel container.
#[derive(Clone, Copy, PartialEq, Eq, Structural, Debug)]
pub struct GridLayout {
    pub width: usize,
    pub height: usize,
    pub rows: usize,
    pub cols: usize,
    /// Side length of each (square) cell, at least 1.
    pub cell_size: usize,
    /// Left edge of the grid; negative when the grid overflows the container.
    pub origin_x: i64,
    /// Top edge of the grid; negative when the grid overflows the container.
    pub origin_y: i64,
}

/// The cell side: the largest size at which the whole grid fits, clamped to
/// a minimum of 1 pixel.
pub open spec fn spec_cell_size(width: int, height: int, rows: int, cols: int) -> int {
    let fit = if width / cols <= height / rows {
        width / cols
    } else {
        height / rows
    };
    if fit < 1 {
        1
    } else {
        fit
    }
}

/// The grid is centered: half of the leftover space on each side. With an
/// overflowing grid the origin moves left/up by half the overhang.
pub open spec fn spec_origin(extent: int, grid: int) -> int {
    if grid <= extent {
        (extent - grid) / 2
    } else {
        -((grid - extent) / 2)
    }
}

pub open spec fn layout_wf(l: GridLayout) -> bool {
    &&& 1 <= l.rows <= MAX_DIM as int
    &&& 1 <= l.cols <= MAX_DIM as int
    &&& l.width <= MAX_PIXEL as int
    &&& l.height <= MAX_PIXEL as int
    &&& l.cell_size == spec_cell_size(l.width as int, l.height as int, l.rows as int, l.cols as int)
    &&& l.origin_x == spec_origin(l.width as int, l.cell_size * l.cols)
    &&& l.origin_y == spec_origin(l.height as int, l.cell_size * l.rows)
}

/// The hit test as a mathematical function: the cell containing the point,
/// or nothing when the point lies outside the container or off the grid.
pub open spec fn hit_test_spec(l: GridLayout, x: int, y: int) -> Option<(int, int)> {
    if x < l.origin_x || y < l.origin_y || x >= l.width || y >= l.height {
        None
    } else {
        let col = (x - l.origin_x) / (l.cell_size as int);
        let row = (y - l.origin_y) / (l.cell_size as int);
        if row < l.rows && col < l.cols {
            Some((row, col))
        } else {
            None
        }
    }
}

pub open spec fn spec_center_x(l: GridLayout, c: int) -> int {
    l.origin_x + c * l.cell_size + l.cell_size / 2
}

pub open spec fn spec_center_y(l: GridLayout, r: int) -> int {
    l.origin_y + r * l.cell_size + l.cell_size / 2
}

/// `(a / b) * b <= a` for positive `b`.
proof fn lemma_div_mul_le(a: int, b: int)
    requires
        0 <= a,
        1 <= b,
    ensures
        (a / b) * b <= a,
        0 <= a / b,
{
    vstd::arithmetic::div_mod::lemma_fundamental_div_mod(a, b);
    vstd::arithmetic::div_mod::lemma_mod_bound(a, b);
    vstd::arithmetic::div_mod::lemma_div_pos_is_pos(a, b);
    assert(b * (a / b) == (a / b) * b) by (nonlinear_arith);
}

/// Bounds every well-formed layout obeys; they keep the pixel arithmetic
/// inside `i64`.
pub proof fn lemma_layout_bounds(l: GridLayout)
    requires
        layout_wf(l),
    ensures
        1 <= l.cell_size <= MAX_PIXEL as int,
        l.cell_size * l.cols <= MAX_PIXEL as int * MAX_DIM as int,
        l.cell_size * l.rows <= MAX_PIXEL as int * MAX_DIM as int,
        -(MAX_PIXEL as int * MAX_DIM as int) <= l.origin_x <= MAX_PIXEL as int,
        -(MAX_PIXEL as int * MAX_DIM as int) <= l.origin_y <= MAX_PIXEL as int,
{
    vstd::arithmetic::div_mod::lemma_div_nonincreasing(l.width as int, l.cols as int);
    vstd::arithmetic::div_mod::lemma_div_nonincreasing(l.height as int, l.rows as int);
    vstd::arithmetic::div_mod::lemma_div_pos_is_pos(l.width as int, l.cols as int);
    vstd::arithmetic::div_mod::lemma_div_pos_is_pos(l.height as int, l.rows as int);
    assert(l.cell_size * l.cols <= MAX_PIXEL as int * MAX_DIM as int) by (nonlinear_arith)
        requires
            1 <= l.cell_size <= MAX_PIXEL as int,
            1 <= l.cols <= MAX_DIM as int,
    ;
    assert(l.cell_size * l.rows <= MAX_PIXEL as int * MAX_DIM as int) by (nonlinear_arith)
        requires
            1 <= l.cell_size <= MAX_PIXEL as int,
            1 <= l.rows <= MAX_DIM as int,
    ;
    assert(0 <= l.cell_size * l.cols && 0 <= l.cell_size * l.rows) by (nonlinear_arith)
        requires
            1 <= l.cell_size,
            1 <= l.cols,
            1 <= l.rows,
    ;
    let gw = l.cell_size * l.cols;
    let gh = l.cell_size * l.rows;
    if gw <= l.width {
        vstd::arithmetic::div_mod::lemma_div_nonincreasing(l.width - gw, 2);
        vstd::arithmetic::div_mod::lemma_div_pos_is_pos(l.width - gw, 2);
    } else {
        vstd::arithmetic::div_mod::lemma_div_nonincreasing(gw - l.width, 2);
        vstd::arithmetic::div_mod::lemma_div_pos_is_pos(gw - l.width, 2);
    }
    if gh <= l.height {
        vstd::arithmetic::div_mod::lemma_div_nonincreasing(l.height - gh, 2);
        vstd::arithmetic::div_mod::lemma_div_pos_is_pos(l.height - gh, 2);
    } else {
        vstd::arithmetic::div_mod::lemma_div_nonincreasing(gh - l.height, 2);
        vstd::arithmetic::div_mod::lemma_div_pos_is_pos(gh - l.height, 2);
    }
}

impl GridLayout {
    /// Computes the layout of a `rows x cols` grid inside a
    /// `width x height` container: the largest square cell such that the
    /// grid fits (at least 1 pixel), the grid centered.
    pub fn compute(width: usize, height: usize, rows: usize, cols: usize) -> (l: GridLayout)
        requires
            1 <= rows <= MAX_DIM,
            1 <= cols <= MAX_DIM,
            width <= MAX_PIXEL,
            height <= MAX_PIXEL,
        ensures
            layout_wf(l),
            l.width == width,
            l.height == height,
            l.rows == rows,
            l.cols == cols,
    {
        let cw = width / cols;
        let ch = height / rows;
        let fit = if cw <= ch {
            cw
        } else {
            ch
        };
        let cell_size = if fit < 1 {
            1
        } else {
            fit
        };
        proof {
            lemma_div_mul_le(width as int, cols as int);
            lemma_div_mul_le(height as int, rows as int);
            if fit >= 1 {
                vstd::arithmetic::mul::lemma_mul_inequality(
                    cell_size as int,
                    cw as int,
                    cols as int,
                );
                vstd::arithmetic::mul::lemma_mul_inequality(
                    cell_size as int,
                    ch as int,
                    rows as int,
                );
            }
        }
        let grid_w = cell_size * cols;
        let grid_h = cell_size * rows;
        let origin_x: i64 = if grid_w <= width {
            ((width - grid_w) / 2) as i64
        } else {
            -(((grid_w - width) / 2) as i64)
        };
        let origin_y: i64 = if grid_h <= height {
            ((height - grid_h) / 2) as i64
        } else {
            -(((grid_h - height) / 2) as i64)
        };
        GridLayout { width, height, rows, cols, cell_size, origin_x, origin_y }
    }

    /// The pixel at the center of cell `(row, col)`.
    pub fn cell_center(&self, row: usize, col: usize) -> (p: (i64, i64))
        requires
            layout_wf(*self),
            row < self.rows,
            col < self.cols,
        ensures
            p.0 == spec_center_x(*self, col as int),
            p.1 == spec_center_y(*self, row as int),
    {
        proof {
            lemma_layout_bounds(*self);
            assert(col as int * self.cell_size as int <= MAX_PIXEL as int * MAX_DIM as int
                && 0 <= col as int * self.cell_size as int) by (nonlinear_arith)
                requires
                    0 <= col as int && (col as int) < MAX_DIM as int,
                    1 <= self.cell_size <= MAX_PIXEL as int,
            ;
            assert(row as int * self.cell_size as int <= MAX_PIXEL as int * MAX_DIM as int
                && 0 <= row as int * self.cell_size as int) by (nonlinear_arith)
                requires
                    0 <= row as int && (row as int) < MAX_DIM as int,
                    1 <= self.cell_size <= MAX_PIXEL as int,
            ;
        }
        let x: i64 = self.origin_x + (col as i64) * (self.cell_size as i64) + (self.cell_size
            / 2) as i64;
        let y: i64 = self.origin_y + (row as i64) * (self.cell_size as i64) + (self.cell_size
            / 2) as i64;
        (x, y)
    }

    /// The inverse of the layout: the cell under the pixel `(x, y)`, or
    /// `None` in the margin outside the grid or outside the container.
    pub fn hit_test(&self, x: i64, y: i64) -> (r: Option<(usize, usize)>)
        requires
            layout_wf(*self),
        ensures
            match r {
                Some(p) => hit_test_spec(*self, x as int, y as int) == Some((
                    p.0 as int,
                    p.1 as int,
                )) && p.0 < self.rows && p.1 < self.cols,
                None => hit_test_spec(*self, x as int, y as int) is None,
            },
    {
        if x < self.origin_x || y < self.origin_y {
            return None;
        }
        if x >= self.width as i64 || y >= self.height as i64 {
            return None;
        }
        proof {
            lemma_layout_bounds(*self);
        }
        let dx = (x - self.origin_x) as u64;
        let dy = (y - self.origin_y) as u64;
        let col = dx / (self.cell_size as u64);
        let row = dy / (self.cell_size as u64);
        if row < self.rows as u64 && col < self.cols as u64 {
            Some((row as usize, col as usize))
        } else {
            None
        }
    }
}

/// The layout/hit-test inverse law: whenever the grid fits inside the
/// container, hit-testing the center of any in-range cell names exactly
/// that cell.
pub proof fn lemma_hit_test_center(l: GridLayout, r: int, c: int)
    requires
        layout_wf(l),
        0 <= r < l.rows,
        0 <= c < l.cols,
        l.cell_size * l.cols <= l.width,
        l.cell_size * l.rows <= l.height,
    ensures
        hit_test_spec(l, spec_center_x(l, c), spec_center_y(l, r)) == Some((r, c)),
{
    let cs = l.cell_size as int;
    let cx = spec_center_x(l, c);
    let cy = spec_center_y(l, r);
    assert(0 <= c * cs && (c + 1) * cs <= l.cols * cs) by (nonlinear_arith)
        requires
            0 <= c < l.cols,
            1 <= cs,
    ;
    assert(0 <= r * cs && (r + 1) * cs <= l.rows * cs) by (nonlinear_arith)
        requires
            0 <= r < l.rows,
            1 <= cs,
    ;
    assert(l.cols * cs == cs * l.cols) by (nonlinear_arith);
    assert(l.rows * cs == cs * l.rows) by (nonlinear_arith);
    assert((c + 1) * cs == c * cs + cs) by (nonlinear_arith);
    assert((r + 1) * cs == r * cs + cs) by (nonlinear_arith);
    assert(0 <= l.origin_x && l.origin_x + cs * l.cols <= l.width);
    assert(0 <= l.origin_y && l.origin_y + cs * l.rows <= l.height);
    assert(cs / 2 < cs && 0 <= cs / 2) by {
        vstd::arithmetic::div_mod::lemma_div_pos_is_pos(cs, 2);
        vstd::arithmetic::div_mod::lemma_div_is_strictly_smaller(cs, 2);
        if cs == 1 {
            assert(cs / 2 == 0);
        }
    }
    lemma_fundamental_div_mod_converse(c * cs + cs / 2, cs, c, cs / 2);
    lemma_fundamental_div_mod_converse(r * cs + cs / 2, cs, r, cs / 2);
    assert((cx - l.origin_x) / cs == c);
    assert((cy - l.origin_y) / cs == r);
    assert(cx < l.width && cy < l.height);
}

} // verus!
