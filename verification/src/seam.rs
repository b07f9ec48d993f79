//! The search for the cheapest top-to-bottom seam through a table of energies.

use crate::energy::energy_rows;
use vstd::math::min;
use vstd::prelude::*;

verus! {

/// Cost at which a column stops being a candidate. It is also the cost that
/// every column inherits when nothing cheaper lies above it.
pub const SEAM_CEILING: u64 = 625;

/// One cell of the cumulative-cost table.
#[derive(Copy, Clone, Debug, PartialEq, Eq)]
pub struct SeamEnergy {
    pub x: usize,
    pub y: usize,
    pub energy: u64,
    pub previous: Option<(usize, usize)>,
}

/// The first `height` rows of `e` hold at least `width` values each.
pub open spec fn covers(e: Seq<Seq<u64>>, width: nat, height: nat) -> bool {
    &&& height <= e.len()
    &&& forall|y: int| 0 <= y < height ==> width <= (#[trigger] e[y]).len()
}

/// What column `x` inherits from the row of costs above it: the least of
/// the costs at `x - 1`, `x` and `x + 1`, capped by the ceiling. A column
/// at either edge looks at nothing and inherits the ceiling.
pub open spec fn inherited_cost(above: Seq<int>, width: nat, x: int) -> int {
    if 0 < x < width - 1 {
        min(SEAM_CEILING as int, min(above[x - 1], min(above[x], above[x + 1])))
    } else {
        SEAM_CEILING as int
    }
}

/// The column from which `x` inherits: the leftmost of `x - 1`, `x` and
/// `x + 1` that holds the inherited cost, or `x` itself where the inherited
/// cost is the ceiling.
pub open spec fn inherited_column(above: Seq<int>, width: nat, x: int) -> int {
    let least = inherited_cost(above, width, x);
    if 0 < x < width - 1 && least < SEAM_CEILING {
        if above[x - 1] == least {
            x - 1
        } else if above[x] == least {
            x
        } else {
            x + 1
        }
    } else {
        x
    }
}

/// Row `y` of the cumulative-cost table over the first `width` columns of `e`.
/// Row 0 is the energies themselves; below, each column adds its energy to
/// what it inherits from the row above.
pub open spec fn cost_row(e: Seq<Seq<u64>>, width: nat, y: int) -> Seq<int>
    decreases y,
{
    if y <= 0 {
        Seq::new(width, |x: int| e[0][x] as int)
    } else {
        let above = cost_row(e, width, y - 1);
        Seq::new(width, |x: int| inherited_cost(above, width, x) + e[y][x])
    }
}

/// Every cost in the first `height` rows of the table fits in 64 bits.
pub open spec fn costs_fit(e: Seq<Seq<u64>>, width: nat, height: nat) -> bool {
    forall|y: int, x: int|
        0 <= y < height && 0 <= x < width ==> #[trigger] cost_row(e, width, y)[x] <= u64::MAX
}

/// `node` is the cell of the cumulative-cost table at column `x` of row `y`:
/// it holds its own place, its cost, and the place above it from which it
/// inherits (none in row 0).
pub open spec fn is_seam_node(
    node: SeamEnergy,
    e: Seq<Seq<u64>>,
    width: nat,
    y: int,
    x: int,
) -> bool {
    &&& node.x == x
    &&& node.y == y
    &&& node.energy == cost_row(e, width, y)[x]
    &&& y == 0 ==> node.previous is None
    &&& y > 0 ==> node.previous == Some(
        (inherited_column(cost_row(e, width, y - 1), width, x) as usize, (y - 1) as usize),
    )
}

/// The costs held by a row of table cells.
spec fn node_costs(row: Seq<SeamEnergy>) -> Seq<int> {
    Seq::new(row.len(), |x: int| row[x].energy as int)
}

/// `table` holds the first `rows` rows of the cumulative-cost table of `e`.
spec fn is_cost_table(
    table: Seq<Vec<SeamEnergy>>,
    e: Seq<Seq<u64>>,
    width: nat,
    rows: nat,
) -> bool {
    &&& table.len() == rows
    &&& forall|y: int| 0 <= y < rows ==> (#[trigger] table[y]).len() == width
    &&& forall|y: int, x: int|
        0 <= y < rows && 0 <= x < width ==> is_seam_node(#[trigger] table[y][x], e, width, y, x)
}

/// Some cost in the row lies under the ceiling.
pub open spec fn has_seam_start(costs: Seq<int>) -> bool {
    exists|x: int| 0 <= x < costs.len() && #[trigger] costs[x] < SEAM_CEILING
}

/// `x` is the leftmost column of least cost, and that cost lies under the ceiling.
pub open spec fn is_seam_start(costs: Seq<int>, x: int) -> bool {
    &&& 0 <= x < costs.len()
    &&& costs[x] < SEAM_CEILING
    &&& forall|j: int| 0 <= j < costs.len() ==> costs[x] <= #[trigger] costs[j]
    &&& forall|j: int| 0 <= j < x ==> costs[x] < #[trigger] costs[j]
}

/// The column at which the seam leaves the bottom row.
pub open spec fn seam_start(costs: Seq<int>) -> int {
    choose|x: int| is_seam_start(costs, x)
}

/// The column of the seam's entry number `i`, counted from the bottom row
/// upwards: entry 0 starts the seam, each later entry is the column from which the
/// one before it inherits.
pub open spec fn seam_column(e: Seq<Seq<u64>>, width: nat, height: nat, i: int) -> int
    decreases i,
{
    if i <= 0 {
        seam_start(cost_row(e, width, height - 1))
    } else {
        inherited_column(
            cost_row(e, width, height - 1 - i),
            width,
            seam_column(e, width, height, i - 1),
        )
    }
}

/// The seam of least cumulative cost as `(column, row)` pairs, from the bottom
/// row to the top row. It is empty where no cost of the bottom row lies under
/// the ceiling.
pub open spec fn low_energy_seam(e: Seq<Seq<u64>>, width: nat, height: nat) -> Seq<(usize, usize)> {
    if has_seam_start(cost_row(e, width, height - 1)) {
        Seq::new(
            height,
            |i: int| (seam_column(e, width, height, i) as usize, (height - 1 - i) as usize),
        )
    } else {
        Seq::empty()
    }
}

/// The energy that the seam gathers from its entry number `i` up to the top row.
pub open spec fn energy_along_seam(e: Seq<Seq<u64>>, width: nat, height: nat, i: int) -> int
    decreases height - i,
{
    let here = e[height - 1 - i][seam_column(e, width, height, i)] as int;
    if i >= height - 1 {
        here
    } else {
        here + energy_along_seam(e, width, height, i + 1)
    }
}

/// Only one column can start the seam.
pub proof fn lemma_seam_start_unique(costs: Seq<int>, a: int, b: int)
    requires
        is_seam_start(costs, a),
        is_seam_start(costs, b),
    ensures
        a == b,
{
    if a < b {
        assert(costs[b] < costs[a]);
        assert(costs[a] <= costs[b]);
    } else if b < a {
        assert(costs[a] < costs[b]);
        assert(costs[b] <= costs[a]);
    }
}

/// The column from which `x` inherits lies in the table, next to `x` or at `x`.
pub proof fn lemma_inherited_column_near(above: Seq<int>, width: nat, x: int)
    requires
        0 <= x < width,
    ensures
        0 <= inherited_column(above, width, x) < width,
        x - 1 <= inherited_column(above, width, x) <= x + 1,
{
}

/// The leftmost column of least cost among the first `n` columns.
proof fn lemma_leftmost_least(costs: Seq<int>, n: int) -> (x: int)
    requires
        0 < n <= costs.len(),
    ensures
        0 <= x < n,
        forall|j: int| 0 <= j < n ==> costs[x] <= #[trigger] costs[j],
        forall|j: int| 0 <= j < x ==> costs[x] < #[trigger] costs[j],
    decreases n,
{
    if n == 1 {
        0
    } else {
        let before = lemma_leftmost_least(costs, n - 1);
        if costs[n - 1] < costs[before] {
            n - 1
        } else {
            before
        }
    }
}

/// Where some cost lies under the ceiling, the seam starts at the leftmost
/// column of least cost.
pub proof fn lemma_seam_start_exists(costs: Seq<int>)
    requires
        has_seam_start(costs),
    ensures
        is_seam_start(costs, seam_start(costs)),
{
    let under = choose|x: int| 0 <= x < costs.len() && #[trigger] costs[x] < SEAM_CEILING;
    let least = lemma_leftmost_least(costs, costs.len() as int);
    assert(costs[least] <= costs[under]);
    assert(is_seam_start(costs, least));
}

/// Every column of a seam lies in the table.
pub proof fn lemma_seam_column_in_table(e: Seq<Seq<u64>>, width: nat, height: nat, i: int)
    requires
        has_seam_start(cost_row(e, width, height - 1)),
    ensures
        0 <= seam_column(e, width, height, i) < width,
    decreases i,
{
    if i <= 0 {
        lemma_seam_start_exists(cost_row(e, width, height - 1));
    } else {
        lemma_seam_column_in_table(e, width, height, i - 1);
        lemma_inherited_column_near(
            cost_row(e, width, height - 1 - i),
            width,
            seam_column(e, width, height, i - 1),
        );
    }
}

/// The cost at each entry of a seam lies under the ceiling, and it is the
/// energy that the seam gathers from that entry up to the top row. So the
/// seam starts where the energy gathered is least.
pub proof fn lemma_seam_cost_is_energy(e: Seq<Seq<u64>>, width: nat, height: nat, i: int)
    requires
        has_seam_start(cost_row(e, width, height - 1)),
        0 <= i < height,
    ensures
        cost_row(e, width, height - 1 - i)[seam_column(e, width, height, i)] < SEAM_CEILING,
        cost_row(e, width, height - 1 - i)[seam_column(e, width, height, i)] == energy_along_seam(
            e,
            width,
            height,
            i,
        ),
    decreases height - i,
{
    lemma_seam_under_ceiling(e, width, height, i);
    lemma_seam_column_in_table(e, width, height, i);
    if i < height - 1 {
        lemma_seam_under_ceiling(e, width, height, i + 1);
        lemma_seam_cost_is_energy(e, width, height, i + 1);
    }
}

/// The cost at each entry of a seam lies under the ceiling, so each entry
/// below the top row inherits the cost of the entry after it.
proof fn lemma_seam_under_ceiling(e: Seq<Seq<u64>>, width: nat, height: nat, i: int)
    requires
        has_seam_start(cost_row(e, width, height - 1)),
        0 <= i < height,
    ensures
        cost_row(e, width, height - 1 - i)[seam_column(e, width, height, i)] < SEAM_CEILING,
        i > 0 ==> cost_row(e, width, height - i)[seam_column(e, width, height, i - 1)] == cost_row(
            e,
            width,
            height - 1 - i,
        )[seam_column(e, width, height, i)] + e[height - i][seam_column(e, width, height, i - 1)],
    decreases i,
{
    if i == 0 {
        lemma_seam_start_exists(cost_row(e, width, height - 1));
    } else {
        lemma_seam_under_ceiling(e, width, height, i - 1);
        lemma_seam_column_in_table(e, width, height, i - 1);
    }
}

/// The shape of a seam: it is empty exactly where the table has no row or
/// no cost of the bottom row lies under the ceiling; otherwise it has one
/// entry for each row, from the bottom row up to row 0, each in the table
/// and at most one column away from the entry before it.
pub proof fn lemma_seam_shape(e: Seq<Seq<u64>>, width: nat, height: nat)
    requires
        width <= usize::MAX,
        height <= usize::MAX,
    ensures
        ({
            let seam = low_energy_seam(e, width, height);
            &&& seam.len() == 0 || seam.len() == height
            &&& seam.len() == 0 <==> height == 0 || !has_seam_start(cost_row(e, width, height - 1))
            &&& forall|i: int|
                0 <= i < seam.len() ==> (#[trigger] seam[i]).0 < width && seam[i].1 == height - 1
                    - i
            &&& forall|i: int|
                0 <= i < seam.len() - 1 ==> (#[trigger] seam[i]).0 - 1 <= seam[i + 1].0 <= seam[i].0
                    + 1
        }),
{
    let seam = low_energy_seam(e, width, height);
    if has_seam_start(cost_row(e, width, height - 1)) {
        assert forall|i: int| 0 <= i < seam.len() implies (#[trigger] seam[i]).0 < width
            && seam[i].1 == height - 1 - i
            && seam[i].0 == seam_column(e, width, height, i) by {
            lemma_seam_column_in_table(e, width, height, i);
        }
        assert forall|i: int| 0 <= i < seam.len() - 1 implies (#[trigger] seam[i]).0 - 1 <= seam[i
            + 1].0 <= seam[i].0 + 1 by {
            lemma_seam_column_in_table(e, width, height, i);
            lemma_seam_column_in_table(e, width, height, i + 1);
            lemma_inherited_column_near(
                cost_row(e, width, height - 1 - (i + 1)),
                width,
                seam_column(e, width, height, i),
            );
        }
    }
}

/// Where every energy below row 0 leaves room for the ceiling, every cost
/// fits in 64 bits.
pub proof fn lemma_costs_fit(e: Seq<Seq<u64>>, width: nat, height: nat)
    requires
        forall|y: int, x: int|
            1 <= y < height && 0 <= x < width ==> (#[trigger] e[y][x]) + SEAM_CEILING <= u64::MAX,
    ensures
        costs_fit(e, width, height),
{
    assert forall|y: int, x: int| 0 <= y < height && 0 <= x < width implies #[trigger] cost_row(
        e,
        width,
        y,
    )[x] <= u64::MAX by {
        if y > 0 {
            assert(e[y][x] + SEAM_CEILING <= u64::MAX);
        }
    }
}

/// The cost and the column that `x` inherits from the finished row above it.
fn inherit(above: &Vec<SeamEnergy>, width: usize, x: usize) -> (found: (u64, usize))
    requires
        x < width,
        above.len() == width,
    ensures
        found.0 == inherited_cost(node_costs(above@), width as nat, x as int),
        found.1 == inherited_column(node_costs(above@), width as nat, x as int),
{
    let mut min_prev: u64 = SEAM_CEILING;
    let mut min_prev_x: usize = x;
    if x > 0 && x < width - 1 {
        if above[x - 1].energy < min_prev {
            min_prev = above[x - 1].energy;
            min_prev_x = x - 1;
        }
        if above[x].energy < min_prev {
            min_prev = above[x].energy;
            min_prev_x = x;
        }
        if above[x + 1].energy < min_prev {
            min_prev = above[x + 1].energy;
            min_prev_x = x + 1;
        }
    }
    (min_prev, min_prev_x)
}

/// Finds the seam of least cumulative cost through the first `width` columns
/// and `height` rows of `energies`, as `(column, row)` pairs from the
/// bottom row up. The seam is empty where no cost of the bottom row lies under
/// the ceiling.
///
/// A table with columns must have a row, `energies` must hold the columns and
/// rows asked for, and no cumulative cost may exceed 64 bits
/// (see `lemma_costs_fit`).
pub fn find_low_energy_seam(energies: &Vec<Vec<u64>>, width: usize, height: usize) -> (seam: Vec<
    (usize, usize),
>)
    requires
        width > 0 ==> height > 0 && covers(energy_rows(energies), width as nat, height as nat),
        costs_fit(energy_rows(energies), width as nat, height as nat),
    ensures
        seam@ == low_energy_seam(energy_rows(energies), width as nat, height as nat),
        seam.len() == 0 || seam.len() == height,
        seam.len() == 0 <==> height == 0 || !has_seam_start(
            cost_row(energy_rows(energies), width as nat, height - 1),
        ),
        forall|i: int|
            0 <= i < seam.len() ==> (#[trigger] seam[i]).0 < width && seam[i].1 == height - 1 - i,
        forall|i: int|
            0 <= i < seam.len() - 1 ==> (#[trigger] seam[i]).0 - 1 <= seam[i + 1].0 <= seam[i].0
                + 1,
        seam.len() > 0 ==> is_seam_start(
            cost_row(energy_rows(energies), width as nat, height - 1),
            seam[0].0 as int,
        ),
{
    let ghost e = energy_rows(energies);
    let ghost w = width as nat;
    proof {
        lemma_seam_shape(e, w, height as nat);
    }
    let mut seam_energies: Vec<Vec<SeamEnergy>> = Vec::new();

    let mut seed: Vec<SeamEnergy> = Vec::new();
    let mut x: usize = 0;
    while x < width
        invariant
            x <= width,
            e == energy_rows(energies),
            w == width as nat,
            width > 0 ==> height > 0 && covers(e, w, height as nat),
            seed.len() == x,
            forall|k: int| 0 <= k < x ==> is_seam_node(#[trigger] seed[k], e, w, 0, k),
        decreases width - x,
    {
        assert(e[0] == energies[0]@);
        seed.push(SeamEnergy { x, y: 0, energy: energies[0][x], previous: None });
        x += 1;
    }
    seam_energies.push(seed);

    let mut y: usize = 1;
    while y < height
        invariant
            1 <= y,
            height > 0 ==> y <= height,
            e == energy_rows(energies),
            w == width as nat,
            width > 0 ==> height > 0 && covers(e, w, height as nat),
            costs_fit(e, w, height as nat),
            is_cost_table(seam_energies@, e, w, y as nat),
        decreases height - y,
    {
        let mut row: Vec<SeamEnergy> = Vec::new();
        let ghost above = cost_row(e, w, y - 1);
        proof {
            assert(node_costs(seam_energies[y - 1]@) =~= above);
        }
        let mut x: usize = 0;
        while x < width
            invariant
                x <= width,
                1 <= y < height,
                e == energy_rows(energies),
                w == width as nat,
                width > 0 ==> covers(e, w, height as nat),
                costs_fit(e, w, height as nat),
                is_cost_table(seam_energies@, e, w, y as nat),
                above == cost_row(e, w, y - 1),
                node_costs(seam_energies[y - 1]@) == above,
                row.len() == x,
                forall|k: int|
                    0 <= k < x ==> is_seam_node(#[trigger] row[k], e, w, y as int, k),
            decreases width - x,
        {
            let (min_prev, min_prev_x) = inherit(&seam_energies[y - 1], width, x);
            proof {
                assert(cost_row(e, w, y as int)[x as int] == inherited_cost(above, w, x as int)
                    + e[y as int][x as int]);
                assert(cost_row(e, w, y as int)[x as int] <= u64::MAX);
            }
            row.push(
                SeamEnergy {
                    energy: min_prev + energies[y][x],
                    x,
                    y,
                    previous: Some((min_prev_x, y - 1)),
                },
            );
            x += 1;
        }
        seam_energies.push(row);
        y += 1;
    }

    let mut last_min: Option<(usize, usize)> = None;
    let mut min_seam_energy: u64 = SEAM_CEILING;
    let ghost bottom = cost_row(e, w, height - 1);
    let mut x: usize = 0;
    while x < width
        invariant
            x <= width,
            w == width as nat,
            width > 0 ==> height > 0,
            width > 0 ==> is_cost_table(seam_energies@, e, w, height as nat),
            bottom == cost_row(e, w, height - 1),
            min_seam_energy <= SEAM_CEILING,
            forall|j: int| 0 <= j < x ==> min_seam_energy <= #[trigger] bottom[j],
            last_min is None ==> min_seam_energy == SEAM_CEILING,
            last_min matches Some((sx, sy)) ==> {
                &&& sy == height - 1
                &&& sx < x
                &&& bottom[sx as int] == min_seam_energy
                &&& min_seam_energy < SEAM_CEILING
                &&& forall|j: int| 0 <= j < sx ==> min_seam_energy < #[trigger] bottom[j]
            },
        decreases width - x,
    {
        let y: usize = height - 1;
        if seam_energies[y][x].energy < min_seam_energy {
            min_seam_energy = seam_energies[y][x].energy;
            last_min = Some((x, y));
        }
        x += 1;
    }

    let mut seam: Vec<(usize, usize)> = Vec::new();
    match last_min {
        None => {
            proof {
                assert(!has_seam_start(bottom));
            }
            seam
        },
        Some((x, y)) => {
            proof {
                assert(is_seam_start(bottom, x as int));
                assert(has_seam_start(bottom));
                lemma_seam_start_unique(bottom, x as int, seam_start(bottom));
            }
            let mut current: SeamEnergy = seam_energies[y][x];
            loop
                invariant_except_break
                    w == width as nat,
                    0 < height,
                    is_cost_table(seam_energies@, e, w, height as nat),
                    seam.len() < height,
                    0 <= seam_column(e, w, height as nat, seam.len() as int) < width,
                    is_seam_node(
                        current,
                        e,
                        w,
                        height - 1 - seam.len(),
                        seam_column(e, w, height as nat, seam.len() as int),
                    ),
                    forall|i: int|
                        0 <= i < seam.len() ==> (#[trigger] seam[i]) == (
                            seam_column(e, w, height as nat, i) as usize,
                            (height - 1 - i) as usize,
                        ),
                    has_seam_start(cost_row(e, w, height - 1)),
                    e == energy_rows(energies),
                ensures
                    seam@ == low_energy_seam(energy_rows(energies), width as nat, height as nat),
                decreases height - seam.len(),
            {
                seam.push((current.x, current.y));
                match current.previous {
                    None => {
                        proof {
                            assert(seam.len() == height);
                            assert(seam@ =~= low_energy_seam(e, w, height as nat));
                        }
                        break;
                    },
                    Some((p_x, p_y)) => {
                        proof {
                            lemma_inherited_column_near(
                                cost_row(e, w, height - seam.len()),
                                w,
                                seam_column(e, w, height as nat, seam.len() - 1),
                            );
                        }
                        current = seam_energies[p_y][p_x];
                    },
                }
            }
            seam
        },
    }
}

} // verus!
