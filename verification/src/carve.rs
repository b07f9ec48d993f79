//! Carving: taking a seam out of a grid, and narrowing a grid seam by seam.

use crate::energy::{compute_energy, energy_field, energy_rows, lemma_energy_bounds};
use crate::grid::{grid_rows, grid_width, is_grid, rectangular, width_of};
use crate::pixel::BarePixel;
use crate::seam::{
    find_low_energy_seam, lemma_costs_fit, lemma_seam_shape, low_energy_seam, SEAM_CEILING,
};
use vstd::prelude::*;
use vstd::set_lib::{lemma_int_range, set_int_range};

verus! {

/// Why a grid could not be carved.
#[derive(Copy, Clone, Debug, PartialEq, Eq, Structural)]
pub enum CarveError {
    /// The width asked for is larger than the width of the grid.
    TargetTooWide,
    /// The seam does not hold exactly one pixel of each row of the grid.
    InconsistentSeam,
}

/// Entry `i` of the seam lies in row `y`.
pub open spec fn crosses(seam: Seq<(usize, usize)>, y: int, i: int) -> bool {
    0 <= i < seam.len() && seam[i].1 == y
}

/// Some entry of the seam lies in row `y`.
pub open spec fn crosses_row(seam: Seq<(usize, usize)>, y: int) -> bool {
    exists|i: int| crosses(seam, y, i)
}

/// The `(column, row)` pair names a pixel of the grid.
pub open spec fn names_pixel(g: Seq<Seq<BarePixel>>, entry: (usize, usize)) -> bool {
    entry.1 < g.len() && entry.0 < g[entry.1 as int].len()
}

/// The seam holds exactly one pixel of each row of `g`: every entry names a
/// pixel of the grid, no two entries lie in one row, and every row has an entry.
pub open spec fn seam_fits(g: Seq<Seq<BarePixel>>, seam: Seq<(usize, usize)>) -> bool {
    &&& forall|i: int| 0 <= i < seam.len() ==> names_pixel(g, #[trigger] seam[i])
    &&& forall|i: int, j: int|
        0 <= i < j < seam.len() ==> (#[trigger] seam[i]).1 != (#[trigger] seam[j]).1
    &&& forall|y: int| 0 <= y < g.len() ==> #[trigger] crosses_row(seam, y)
}

/// The column at which the seam crosses row `y`.
pub open spec fn seam_column_in_row(seam: Seq<(usize, usize)>, y: int) -> int {
    seam[choose|i: int| crosses(seam, y, i)].0 as int
}

/// The grid without the pixels of the seam: each row loses the pixel at the
/// seam's column and keeps the others in their order.
pub open spec fn without_seam(g: Seq<Seq<BarePixel>>, seam: Seq<(usize, usize)>) -> Seq<
    Seq<BarePixel>,
> {
    Seq::new(g.len(), |y: int| g[y].remove(seam_column_in_row(seam, y)))
}

/// The column at which a fitting seam crosses a row is a column of that row.
pub proof fn lemma_seam_column_in_row(g: Seq<Seq<BarePixel>>, seam: Seq<(usize, usize)>, y: int)
    requires
        seam_fits(g, seam),
        0 <= y < g.len(),
    ensures
        0 <= seam_column_in_row(seam, y) < g[y].len(),
        forall|i: int| crosses(seam, y, i) ==> seam[i].0 == seam_column_in_row(seam, y),
{
    assert(crosses_row(seam, y));
    let chosen = choose|i: int| crosses(seam, y, i);
    assert forall|i: int| crosses(seam, y, i) implies seam[i].0 == seam_column_in_row(seam, y) by {
        if i < chosen {
            assert(seam[i].1 != seam[chosen].1);
        } else if chosen < i {
            assert(seam[chosen].1 != seam[i].1);
        }
    }
}

/// A fitting seam has as many entries as the grid has rows.
pub proof fn lemma_fitting_seam_length(g: Seq<Seq<BarePixel>>, seam: Seq<(usize, usize)>)
    requires
        seam_fits(g, seam),
    ensures
        seam.len() == g.len(),
{
    let rows = Seq::new(seam.len(), |i: int| seam[i].1 as int);
    assert(rows.no_duplicates()) by {
        assert forall|i: int, j: int|
            0 <= i < rows.len() && 0 <= j < rows.len() && i != j implies rows[i] != rows[j] by {
            if i < j {
                assert(seam[i].1 != seam[j].1);
            } else {
                assert(seam[j].1 != seam[i].1);
            }
        }
    }
    rows.unique_seq_to_set();
    let all_rows = set_int_range(0, g.len() as int);
    assert(rows.to_set() =~= all_rows) by {
        assert forall|y: int| all_rows.contains(y) implies rows.to_set().contains(y) by {
            assert(crosses_row(seam, y));
            let i = choose|i: int| crosses(seam, y, i);
            assert(rows[i] == y);
        }
        assert forall|y: int| rows.to_set().contains(y) implies all_rows.contains(y) by {
            let i = choose|i: int| 0 <= i < rows.len() && rows[i] == y;
            assert(names_pixel(g, seam[i]));
        }
    }
    lemma_int_range(0, g.len() as int);
}

/// Taking a fitting seam out of a grid of `width` columns and `height` rows
/// leaves a grid of `width - 1` columns and `height` rows.
pub proof fn lemma_without_seam_narrows(
    g: Seq<Seq<BarePixel>>,
    seam: Seq<(usize, usize)>,
    width: int,
    height: int,
)
    requires
        is_grid(g, width, height),
        seam_fits(g, seam),
    ensures
        is_grid(without_seam(g, seam), width - 1, height),
        height > 0 ==> width > 0,
{
    assert forall|y: int| 0 <= y < height implies (#[trigger] without_seam(g, seam)[y]).len()
        == width - 1 by {
        lemma_seam_column_in_row(g, seam, y);
    }
    if height > 0 {
        lemma_seam_column_in_row(g, seam, 0);
    }
}

/// The row without the pixel at column `skip`.
fn row_without(row: &Vec<BarePixel>, skip: usize) -> (rest: Vec<BarePixel>)
    requires
        skip < row.len(),
    ensures
        rest@ == row@.remove(skip as int),
{
    let mut rest: Vec<BarePixel> = Vec::new();
    let mut index: usize = 0;
    while index < row.len()
        invariant
            index <= row.len(),
            skip < row.len(),
            index <= skip ==> rest@ == row@.take(index as int),
            index > skip ==> rest@ == row@.remove(skip as int).take(index - 1),
        decreases row.len() - index,
    {
        if index != skip {
            rest.push(row[index]);
        }
        index += 1;
        proof {
            if index <= skip {
                assert(rest@ =~= row@.take(index as int));
            } else {
                assert(rest@ =~= row@.remove(skip as int).take(index - 1));
            }
        }
    }
    assert(rest@ =~= row@.remove(skip as int));
    rest
}

/// Takes the seam out of the grid: the result has the rows of `grid`, each
/// without the pixel at the seam's column. Fails where the seam does not
/// hold exactly one pixel of each row.
pub fn remove_seam(grid: &Vec<Vec<BarePixel>>, seam: &Vec<(usize, usize)>) -> (carved: Result<
    Vec<Vec<BarePixel>>,
    CarveError,
>)
    ensures
        match carved {
            Ok(narrower) => {
                &&& seam_fits(grid_rows(grid), seam@)
                &&& grid_rows(&narrower) == without_seam(grid_rows(grid), seam@)
                &&& narrower.len() == grid.len()
                &&& forall|y: int|
                    0 <= y < grid.len() ==> (#[trigger] narrower[y]).len() == grid[y].len() - 1
            },
            Err(e) => e == CarveError::InconsistentSeam && !seam_fits(grid_rows(grid), seam@),
        },
{
    let ghost g = grid_rows(grid);
    let height: usize = grid.len();

    let mut columns: Vec<Option<usize>> = Vec::new();
    let mut y: usize = 0;
    while y < height
        invariant
            y <= height,
            columns.len() == y,
            forall|k: int| 0 <= k < y ==> (#[trigger] columns[k]) is None,
        decreases height - y,
    {
        columns.push(None);
        y += 1;
    }

    let mut i: usize = 0;
    while i < seam.len()
        invariant
            i <= seam.len(),
            height == grid.len(),
            g == grid_rows(grid),
            columns.len() == height,
            forall|k: int|
                0 <= k < i ==> names_pixel(g, #[trigger] seam[k]) && columns[seam[k].1 as int]
                    == Some(seam[k].0),
            forall|k: int, l: int|
                0 <= k < l < i ==> (#[trigger] seam[k]).1 != (#[trigger] seam[l]).1,
            forall|r: int|
                0 <= r < height && (#[trigger] columns[r]) is Some ==> exists|k: int|
                    0 <= k < i && #[trigger] crosses(seam@, r, k),
        decreases seam.len() - i,
    {
        let (column, row) = seam[i];
        if row >= height {
            return Err(CarveError::InconsistentSeam);
        }
        assert(g[row as int] == grid[row as int]@);
        if column >= grid[row].len() {
            return Err(CarveError::InconsistentSeam);
        }
        if columns[row].is_some() {
            proof {
                let k = choose|k: int| 0 <= k < i && #[trigger] crosses(seam@, row as int, k);
                assert(seam[k].1 == seam[i as int].1);
            }
            return Err(CarveError::InconsistentSeam);
        }
        let ghost before = columns@;
        columns.set(row, Some(column));
        proof {
            assert forall|r: int| 0 <= r < height && (#[trigger] columns[r]) is Some implies exists|
                k: int,
            |
                0 <= k < i + 1 && #[trigger] crosses(seam@, r, k) by {
                if r == row {
                    assert(crosses(seam@, r, i as int));
                } else {
                    assert(before[r] is Some);
                    let k = choose|k: int| 0 <= k < i && #[trigger] crosses(seam@, r, k);
                    assert(crosses(seam@, r, k));
                }
            }
        }
        i += 1;
    }

    let mut narrower: Vec<Vec<BarePixel>> = Vec::new();
    let mut y: usize = 0;
    while y < height
        invariant
            y <= height,
            height == grid.len(),
            g == grid_rows(grid),
            columns.len() == height,
            forall|k: int|
                0 <= k < seam.len() ==> names_pixel(g, #[trigger] seam[k])
                    && columns[seam[k].1 as int] == Some(seam[k].0),
            forall|k: int, l: int|
                0 <= k < l < seam.len() ==> (#[trigger] seam[k]).1 != (#[trigger] seam[l]).1,
            forall|r: int|
                0 <= r < height && (#[trigger] columns[r]) is Some ==> crosses_row(seam@, r),
            forall|r: int| 0 <= r < y ==> (#[trigger] columns[r]) is Some,
            narrower.len() == y,
            forall|r: int|
                0 <= r < y ==> (#[trigger] narrower[r])@ == g[r].remove(
                    seam_column_in_row(seam@, r),
                ),
        decreases height - y,
    {
        match columns[y] {
            None => {
                proof {
                    assert forall|k: int| !crosses(seam@, y as int, k) by {
                        if 0 <= k < seam.len() {
                            assert(columns[seam[k].1 as int] is Some);
                        }
                    }
                    assert(!crosses_row(seam@, y as int));
                }
                return Err(CarveError::InconsistentSeam);
            },
            Some(column) => {
                proof {
                    let k = choose|k: int| crosses(seam@, y as int, k);
                    assert(crosses(seam@, y as int, k));
                    assert(columns[seam[k].1 as int] == Some(seam[k].0));
                    assert(g[y as int] == grid[y as int]@);
                }
                narrower.push(row_without(&grid[y], column));
            },
        }
        y += 1;
    }
    proof {
        assert forall|r: int| 0 <= r < g.len() implies #[trigger] crosses_row(seam@, r) by {
            assert(columns[r] is Some);
        }
        assert(seam_fits(g, seam@));
        assert(grid_rows(&narrower) =~= without_seam(g, seam@));
        assert forall|r: int| 0 <= r < grid.len() implies (#[trigger] narrower[r]).len()
            == grid[r].len() - 1 by {
            lemma_seam_column_in_row(g, seam@, r);
            assert(without_seam(g, seam@)[r] == narrower[r]@);
            assert(g[r] == grid[r]@);
        }
    }
    Ok(narrower)
}

/// One step of carving: the grid without its seam of least cumulative
/// energy, or nothing where that seam does not hold one pixel of each row.
pub open spec fn narrowed(g: Seq<Seq<BarePixel>>) -> Option<Seq<Seq<BarePixel>>> {
    let seam = low_energy_seam(energy_field(g), width_of(g), g.len());
    if seam_fits(g, seam) {
        Some(without_seam(g, seam))
    } else {
        None
    }
}

/// `steps` steps of carving, one after the other, or nothing where one of them fails.
pub open spec fn carved_by(g: Seq<Seq<BarePixel>>, steps: nat) -> Option<Seq<Seq<BarePixel>>>
    decreases steps,
{
    if steps == 0 {
        Some(g)
    } else {
        match narrowed(g) {
            Some(narrower) => carved_by(narrower, (steps - 1) as nat),
            None => None,
        }
    }
}

/// A step of carving succeeds exactly where the grid has no row or some seam
/// stays under the ceiling, and it takes one column from a rectangular grid
/// that has a row.
pub proof fn lemma_narrowed(g: Seq<Seq<BarePixel>>)
    requires
        rectangular(g),
        g.len() <= usize::MAX,
        width_of(g) <= usize::MAX,
    ensures
        narrowed(g) is Some <==> low_energy_seam(energy_field(g), width_of(g), g.len()).len()
            == g.len(),
        narrowed(g) matches Some(narrower) ==> {
            &&& rectangular(narrower)
            &&& narrower.len() == g.len()
            &&& g.len() > 0 ==> width_of(narrower) == width_of(g) - 1
        },
{
    let seam = low_energy_seam(energy_field(g), width_of(g), g.len());
    lemma_seam_shape(energy_field(g), width_of(g), g.len());
    if seam.len() == g.len() {
        assert forall|y: int| 0 <= y < g.len() implies #[trigger] crosses_row(seam, y) by {
            assert(crosses(seam, y, g.len() - 1 - y));
        }
        assert(seam_fits(g, seam));
        lemma_without_seam_narrows(g, seam, width_of(g) as int, g.len() as int);
    } else {
        assert(seam.len() == 0);
        assert(!crosses_row(seam, 0));
    }
}

/// Carving by `first + second` steps is carving by `first` steps and then,
/// in what they left, by `second` steps.
pub proof fn lemma_carved_by_split(g: Seq<Seq<BarePixel>>, first: nat, second: nat)
    ensures
        carved_by(g, first + second) == match carved_by(g, first) {
            Some(narrower) => carved_by(narrower, second),
            None => None,
        },
    decreases first,
{
    if first > 0 {
        match narrowed(g) {
            Some(narrower) => {
                lemma_carved_by_split(narrower, (first - 1) as nat, second);
                assert(carved_by(g, first + second) == carved_by(
                    narrower,
                    (first + second - 1) as nat,
                ));
            },
            None => {},
        }
    }
}

/// Carving a rectangular grid by `steps` steps, none of which fails, leaves a
/// rectangular grid with the same number of rows and `steps` columns less.
/// A grid that has a row cannot be carved by more steps than it has columns.
pub proof fn lemma_carved_by_narrows(g: Seq<Seq<BarePixel>>, steps: nat)
    requires
        rectangular(g),
        g.len() <= usize::MAX,
        width_of(g) <= usize::MAX,
    ensures
        carved_by(g, steps) matches Some(narrower) ==> {
            &&& rectangular(narrower)
            &&& narrower.len() == g.len()
            &&& g.len() > 0 ==> steps <= width_of(g) && width_of(narrower) == width_of(g) - steps
        },
    decreases steps,
{
    if steps > 0 {
        lemma_narrowed(g);
        match narrowed(g) {
            Some(narrower) => {
                lemma_carved_by_narrows(narrower, (steps - 1) as nat);
            },
            None => {},
        }
    }
}

/// Takes the seam of least cumulative energy out of a rectangular grid.
/// Fails where the grid has rows and no seam stays under the ceiling.
pub fn resize_once(grid: &Vec<Vec<BarePixel>>) -> (carved: Result<Vec<Vec<BarePixel>>, CarveError>)
    requires
        rectangular(grid_rows(grid)),
    ensures
        match carved {
            Ok(narrower) => {
                &&& narrowed(grid_rows(grid)) == Some(grid_rows(&narrower))
                &&& is_grid(
                    grid_rows(&narrower),
                    width_of(grid_rows(grid)) - 1,
                    grid.len() as int,
                )
            },
            Err(e) => e == CarveError::InconsistentSeam && narrowed(grid_rows(grid)) is None,
        },
{
    let ghost g = grid_rows(grid);
    let energies: Vec<Vec<u64>> = compute_energy(grid);
    let width: usize = grid_width(grid);
    let height: usize = grid.len();
    proof {
        let e = energy_rows(&energies);
        assert forall|y: int, x: int| 1 <= y < height && 0 <= x < width implies (#[trigger] e[y][x])
            + SEAM_CEILING <= u64::MAX by {
            lemma_energy_bounds(g, x, y);
        }
        lemma_costs_fit(e, width as nat, height as nat);
    }
    let seam: Vec<(usize, usize)> = find_low_energy_seam(&energies, width, height);
    remove_seam(grid, &seam)
}

/// A copy of the grid.
fn copy_grid(grid: &Vec<Vec<BarePixel>>) -> (copy: Vec<Vec<BarePixel>>)
    ensures
        grid_rows(&copy) == grid_rows(grid),
{
    let mut copy: Vec<Vec<BarePixel>> = Vec::new();
    let mut y: usize = 0;
    while y < grid.len()
        invariant
            y <= grid.len(),
            copy.len() == y,
            forall|r: int| 0 <= r < y ==> (#[trigger] copy[r])@ == grid[r]@,
        decreases grid.len() - y,
    {
        let mut row: Vec<BarePixel> = Vec::new();
        let mut x: usize = 0;
        while x < grid[y].len()
            invariant
                y < grid.len(),
                x <= grid[y as int].len(),
                row@ == grid[y as int]@.take(x as int),
            decreases grid[y as int].len() - x,
        {
            row.push(grid[y][x]);
            x += 1;
            assert(row@ =~= grid[y as int]@.take(x as int));
        }
        assert(row@ =~= grid[y as int]@);
        copy.push(row);
        y += 1;
    }
    assert(grid_rows(&copy) =~= grid_rows(grid));
    copy
}

/// Narrows a rectangular grid to `target` columns by taking out one seam of
/// least cumulative energy after the other, each found in the grid that the
/// one before it left: as many steps as the grid is wider than `target`, none
/// where it has that width already. Fails, before any carving, where `target` is
/// larger than the grid's width, and later where a step finds no seam.
pub fn carve_to_width(grid: &Vec<Vec<BarePixel>>, target: usize) -> (carved: Result<
    Vec<Vec<BarePixel>>,
    CarveError,
>)
    requires
        rectangular(grid_rows(grid)),
    ensures
        match carved {
            Ok(narrower) => {
                &&& target <= width_of(grid_rows(grid))
                &&& carved_by(grid_rows(grid), (width_of(grid_rows(grid)) - target) as nat) == Some(
                    grid_rows(&narrower),
                )
            },
            Err(CarveError::TargetTooWide) => target > width_of(grid_rows(grid)),
            Err(CarveError::InconsistentSeam) => {
                &&& target <= width_of(grid_rows(grid))
                &&& carved_by(grid_rows(grid), (width_of(grid_rows(grid)) - target) as nat) is None
            },
        },
        target > width_of(grid_rows(grid)) ==> carved == Err::<Vec<Vec<BarePixel>>, CarveError>(
            CarveError::TargetTooWide,
        ),
        target == width_of(grid_rows(grid)) ==> (carved matches Ok(same) && grid_rows(&same)
            == grid_rows(grid)),
        carved matches Ok(narrower) ==> is_grid(
            grid_rows(&narrower),
            target as int,
            grid.len() as int,
        ),
{
    let ghost g = grid_rows(grid);
    proof {
        if grid.len() > 0 {
            assert(g[0].len() == grid[0].len());
        }
        if target <= width_of(g) {
            lemma_carved_by_narrows(g, (width_of(g) - target) as nat);
        }
    }
    let mut width: usize = grid_width(grid);
    if target > width {
        return Err(CarveError::TargetTooWide);
    }
    let mut current: Vec<Vec<BarePixel>> = copy_grid(grid);
    while width != target
        invariant
            g == grid_rows(grid),
            target <= width <= width_of(g),
            rectangular(grid_rows(&current)),
            width == width_of(grid_rows(&current)),
            carved_by(g, (width_of(g) - target) as nat) == carved_by(
                grid_rows(&current),
                (width - target) as nat,
            ),
        decreases width - target,
    {
        proof {
            lemma_narrowed(grid_rows(&current));
        }
        match resize_once(&current) {
            Ok(narrower) => {
                current = narrower;
                width -= 1;
            },
            Err(_) => {
                assert(carved_by(grid_rows(&current), (width - target) as nat) is None);
                return Err(CarveError::InconsistentSeam);
            },
        }
    }
    Ok(current)
}

} // verus!
