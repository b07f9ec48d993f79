//! The energy of a pixel: how strongly its colour differs from the pixels to
//! its left and right.

use crate::grid::{grid_rows, in_bounds};
use crate::pixel::BarePixel;
use vstd::prelude::*;

verus! {

/// The largest energy a pixel can have.
pub const MAX_ENERGY: u64 = 624;

/// The rows of an energy table as sequences.
pub open spec fn energy_rows(energies: &Vec<Vec<u64>>) -> Seq<Seq<u64>> {
    Seq::new(energies.len() as nat, |y: int| energies[y]@)
}

/// The squared difference of two channel values.
pub open spec fn squared_gap(a: u8, b: u8) -> int {
    (a - b) * (a - b)
}

/// The squared distance between the colours of two pixels. Alpha has no part in it.
pub open spec fn colour_gap(p: BarePixel, q: BarePixel) -> int {
    squared_gap(p.red(), q.red()) + squared_gap(p.green(), q.green()) + squared_gap(
        p.blue(),
        q.blue(),
    )
}

/// Two pixels agree in red, green and blue.
pub open spec fn same_colour(p: BarePixel, q: BarePixel) -> bool {
    p.red() == q.red() && p.green() == q.green() && p.blue() == q.blue()
}

/// The colour gap between the pixel at column `x` of row `y` and the pixel to
/// its left, 0 in column 0.
pub open spec fn left_gap(g: Seq<Seq<BarePixel>>, x: int, y: int) -> int {
    if x > 0 {
        colour_gap(g[y][x - 1], g[y][x])
    } else {
        0
    }
}

/// The colour gap between the pixel at column `x` of row `y` and the pixel to
/// its right, 0 in the last column of the row.
pub open spec fn right_gap(g: Seq<Seq<BarePixel>>, x: int, y: int) -> int {
    if x + 1 < g[y].len() {
        colour_gap(g[y][x + 1], g[y][x])
    } else {
        0
    }
}

/// The pixel at column `x` of row `y` has the colour of each neighbour that it
/// has in its row.
pub open spec fn flat_at(g: Seq<Seq<BarePixel>>, x: int, y: int) -> bool {
    &&& x > 0 ==> same_colour(g[y][x - 1], g[y][x])
    &&& x + 1 < g[y].len() ==> same_colour(g[y][x + 1], g[y][x])
}

/// `r` is the square root of `n`, rounded down.
pub open spec fn is_floor_sqrt(n: int, r: int) -> bool {
    0 <= r && r * r <= n < (r + 1) * (r + 1)
}

/// The square root of `n`, rounded down.
pub open spec fn floor_sqrt(n: int) -> int {
    choose|r: int| is_floor_sqrt(n, r)
}

/// The energy of the pixel at column `x` of row `y`: the square root, rounded
/// down, of the sum of its colour gaps to the left and to the right. The
/// rows above and below have no part in it.
pub open spec fn pixel_energy(g: Seq<Seq<BarePixel>>, x: int, y: int) -> int {
    floor_sqrt(left_gap(g, x, y) + right_gap(g, x, y))
}

/// The energies of all pixels of a grid, row by row.
pub open spec fn energy_field(g: Seq<Seq<BarePixel>>) -> Seq<Seq<u64>> {
    Seq::new(g.len(), |y: int| Seq::new(g[y].len(), |x: int| pixel_energy(g, x, y) as u64))
}

/// Every number from 0 on has a rounded-down square root.
pub proof fn lemma_floor_sqrt_exists(n: int) -> (r: int)
    requires
        0 <= n,
    ensures
        is_floor_sqrt(n, r),
    decreases n,
{
    if n == 0 {
        assert(is_floor_sqrt(0, 0)) by (nonlinear_arith);
        0
    } else {
        let before = lemma_floor_sqrt_exists(n - 1);
        let next = before + 1;
        if next * next <= n {
            assert(next * next < (next + 1) * (next + 1)) by (nonlinear_arith)
                requires
                    0 <= next,
            ;
            next
        } else {
            before
        }
    }
}

/// A number has only one rounded-down square root.
pub proof fn lemma_floor_sqrt_unique(n: int, r: int)
    requires
        is_floor_sqrt(n, r),
    ensures
        floor_sqrt(n) == r,
{
    let s = floor_sqrt(n);
    assert(is_floor_sqrt(n, s));
    if s < r {
        assert((s + 1) * (s + 1) <= r * r) by (nonlinear_arith)
            requires
                0 <= s + 1 <= r,
        ;
    } else if r < s {
        assert((r + 1) * (r + 1) <= s * s) by (nonlinear_arith)
            requires
                0 <= r + 1 <= s,
        ;
    }
}

/// A squared channel difference is at most 255 squared, and 0 only between equal values.
pub proof fn lemma_squared_gap_bounds(a: u8, b: u8)
    ensures
        0 <= squared_gap(a, b) <= 65025,
        squared_gap(a, b) == 0 <==> a == b,
{
    let d = a - b;
    assert(0 <= d * d <= 65025 && (d * d == 0 <==> d == 0)) by (nonlinear_arith)
        requires
            -255 <= d <= 255,
    ;
}

/// The colour gap of two pixels is bounded, and 0 only between pixels of the same colour.
pub proof fn lemma_colour_gap_bounds(p: BarePixel, q: BarePixel)
    ensures
        0 <= colour_gap(p, q) <= 195075,
        colour_gap(p, q) == 0 <==> same_colour(p, q),
{
    lemma_squared_gap_bounds(p.red(), q.red());
    lemma_squared_gap_bounds(p.green(), q.green());
    lemma_squared_gap_bounds(p.blue(), q.blue());
}

/// The energy of a pixel lies between 0 and `MAX_ENERGY`, and it is 0 exactly
/// where the pixel has the colour of each neighbour to its left and right.
pub proof fn lemma_energy_bounds(g: Seq<Seq<BarePixel>>, x: int, y: int)
    ensures
        0 <= pixel_energy(g, x, y) <= MAX_ENERGY,
        pixel_energy(g, x, y) == 0 <==> flat_at(g, x, y),
{
    let sum = left_gap(g, x, y) + right_gap(g, x, y);
    if x > 0 {
        lemma_colour_gap_bounds(g[y][x - 1], g[y][x]);
    }
    if x + 1 < g[y].len() {
        lemma_colour_gap_bounds(g[y][x + 1], g[y][x]);
    }
    let r = lemma_floor_sqrt_exists(sum);
    lemma_floor_sqrt_unique(sum, r);
    if r > MAX_ENERGY {
        assert(r * r >= 390625) by (nonlinear_arith)
            requires
                r >= 625,
        ;
    }
    if sum == 0 {
        assert(is_floor_sqrt(0, 0)) by (nonlinear_arith);
        lemma_floor_sqrt_unique(0, 0);
    }
    if r == 0 {
        assert((r + 1) * (r + 1) == 1) by (nonlinear_arith)
            requires
                r == 0,
        ;
    }
}

/// The square root of `n`, rounded down.
fn integer_sqrt(n: u64) -> (r: u64)
    ensures
        r == floor_sqrt(n as int),
{
    let mut lo: u64 = 0;
    let mut hi: u64 = 4294967296;
    assert(lo * lo <= n < hi * hi) by (nonlinear_arith)
        requires
            lo == 0,
            hi == 4294967296,
            n <= u64::MAX,
    ;
    while hi - lo > 1
        invariant
            lo < hi <= 4294967296,
            lo * lo <= n < hi * hi,
        decreases hi - lo,
    {
        let mid: u64 = lo + (hi - lo) / 2;
        assert(mid * mid <= u64::MAX) by (nonlinear_arith)
            requires
                mid <= 4294967295,
        ;
        if mid * mid <= n {
            lo = mid;
        } else {
            hi = mid;
        }
    }
    proof {
        lemma_floor_sqrt_unique(n as int, lo as int);
    }
    lo
}

/// The squared difference of two channel values.
fn channel_gap(a: u8, b: u8) -> (gap: i64)
    ensures
        gap == squared_gap(a, b),
        0 <= gap <= 65025,
{
    let d: i64 = a as i64 - b as i64;
    proof {
        lemma_squared_gap_bounds(a, b);
    }
    d * d
}

/// The squared distance between the colours of two pixels.
fn pixel_gap(p: BarePixel, q: BarePixel) -> (gap: i64)
    ensures
        gap == colour_gap(p, q),
        0 <= gap <= 195075,
{
    let p_rgba: [u8; 4] = p.extract();
    let q_rgba: [u8; 4] = q.extract();
    channel_gap(p_rgba[0], q_rgba[0]) + channel_gap(p_rgba[1], q_rgba[1]) + channel_gap(
        p_rgba[2],
        q_rgba[2],
    )
}

/// The energy of the pixel at column `x` of row `y`, which must lie in the grid.
pub fn calc_pixel_energy(x: usize, y: usize, img: &Vec<Vec<BarePixel>>) -> (energy: u64)
    requires
        y < img.len(),
        x < img[y as int].len(),
    ensures
        energy == pixel_energy(grid_rows(img), x as int, y as int),
        energy <= MAX_ENERGY,
        energy == 0 <==> flat_at(grid_rows(img), x as int, y as int),
{
    let ghost g = grid_rows(img);
    assert(g[y as int] == img[y as int]@);
    let middle: BarePixel = img[y][x];

    let left: i64 = if x > 0 && in_bounds(x - 1, y, img) {
        pixel_gap(img[y][x - 1], middle)
    } else {
        0
    };

    let right: i64 = if in_bounds(x + 1, y, img) {
        pixel_gap(img[y][x + 1], middle)
    } else {
        0
    };

    proof {
        lemma_energy_bounds(g, x as int, y as int);
    }
    integer_sqrt((left + right) as u64)
}

/// The energy of every pixel of a grid: a table with the rows and columns of the grid.
pub fn compute_energy(grid: &Vec<Vec<BarePixel>>) -> (energies: Vec<Vec<u64>>)
    ensures
        energy_rows(&energies) == energy_field(grid_rows(grid)),
        energies.len() == grid.len(),
        forall|y: int| 0 <= y < grid.len() ==> (#[trigger] energies[y]).len() == grid[y].len(),
        forall|y: int, x: int|
            0 <= y < grid.len() && 0 <= x < grid[y].len() ==> (#[trigger] energies[y][x])
                <= MAX_ENERGY,
{
    let ghost g = grid_rows(grid);
    let mut energies: Vec<Vec<u64>> = Vec::new();
    let mut y: usize = 0;
    while y < grid.len()
        invariant
            y <= grid.len(),
            g == grid_rows(grid),
            energies.len() == y,
            forall|k: int| 0 <= k < y ==> (#[trigger] energies[k])@ == energy_field(g)[k],
            forall|k: int, x: int|
                0 <= k < y && 0 <= x < grid[k].len() ==> (#[trigger] energies[k][x]) <= MAX_ENERGY,
        decreases grid.len() - y,
    {
        let mut row: Vec<u64> = Vec::new();
        let mut x: usize = 0;
        while x < grid[y].len()
            invariant
                y < grid.len(),
                x <= grid[y as int].len(),
                g == grid_rows(grid),
                row.len() == x,
                forall|k: int|
                    0 <= k < x ==> (#[trigger] row[k]) == pixel_energy(g, k, y as int) as u64
                        && row[k] <= MAX_ENERGY,
            decreases grid[y as int].len() - x,
        {
            row.push(calc_pixel_energy(x, y, grid));
            x += 1;
        }
        assert(row@ =~= energy_field(g)[y as int]);
        energies.push(row);
        y += 1;
    }
    assert(energy_rows(&energies) =~= energy_field(g));
    energies
}

} // verus!
