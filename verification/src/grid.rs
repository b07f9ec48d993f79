//! Pixel grids: rows of pixels, indexed by row and then by column.

use crate::pixel::BarePixel;
use vstd::prelude::*;

verus! {

/// The rows of a grid as sequences of pixels.
pub open spec fn grid_rows(grid: &Vec<Vec<BarePixel>>) -> Seq<Seq<BarePixel>> {
    Seq::new(grid.len() as nat, |y: int| grid[y]@)
}

/// `g` has `height` rows of `width` pixels each.
pub open spec fn is_grid(g: Seq<Seq<BarePixel>>, width: int, height: int) -> bool {
    &&& g.len() == height
    &&& forall|y: int| 0 <= y < height ==> (#[trigger] g[y]).len() == width
}

/// The width of a grid: the length of its first row, and 0 where it has no row.
pub open spec fn width_of(g: Seq<Seq<BarePixel>>) -> nat {
    if g.len() == 0 {
        0
    } else {
        g[0].len()
    }
}

/// All rows of `g` have the same length.
pub open spec fn rectangular(g: Seq<Seq<BarePixel>>) -> bool {
    is_grid(g, width_of(g) as int, g.len() as int)
}

/// Whether the grid has a pixel at column `x` of row `y`.
pub fn in_bounds(x: usize, y: usize, grid: &Vec<Vec<BarePixel>>) -> (inside: bool)
    ensures
        inside == (y < grid.len() && x < grid[y as int].len()),
{
    match grid.get(y) {
        Some(row) => match row.get(x) {
            Some(_) => return true,
            None => return false,
        },
        _ => return false,
    }
}

/// The width of a grid: the length of its first row, and 0 where it has no row.
pub fn grid_width(grid: &Vec<Vec<BarePixel>>) -> (width: usize)
    ensures
        width == width_of(grid_rows(grid)),
{
    if grid.len() == 0 {
        0
    } else {
        assert(grid_rows(grid)[0] == grid[0]@);
        grid[0].len()
    }
}

/// Whether all rows of the grid have the same length.
pub fn is_rectangular(grid: &Vec<Vec<BarePixel>>) -> (even: bool)
    ensures
        even == rectangular(grid_rows(grid)),
{
    let ghost g = grid_rows(grid);
    let width: usize = grid_width(grid);
    let mut y: usize = 0;
    while y < grid.len()
        invariant
            y <= grid.len(),
            g == grid_rows(grid),
            width == width_of(g),
            forall|k: int| 0 <= k < y ==> (#[trigger] g[k]).len() == width,
        decreases grid.len() - y,
    {
        assert(g[y as int] == grid[y as int]@);
        if grid[y].len() != width {
            return false;
        }
        y += 1;
    }
    true
}

} // verus!
