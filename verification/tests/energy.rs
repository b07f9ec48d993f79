use seam_carving::energy::{calc_pixel_energy, compute_energy, MAX_ENERGY};
use seam_carving::pixel::BarePixel;

fn rgb(r: u8, g: u8, b: u8) -> BarePixel {
    BarePixel::new([r, g, b, 255])
}

#[test]
fn energy_is_zero_where_the_neighbours_have_the_same_colour() {
    let grid = vec![vec![rgb(40, 50, 60); 4]];
    for x in 0..4 {
        assert_eq!(calc_pixel_energy(x, 0, &grid), 0);
    }
}

#[test]
fn energy_of_a_lone_pixel_is_zero() {
    let grid = vec![vec![rgb(255, 0, 128)]];
    assert_eq!(calc_pixel_energy(0, 0, &grid), 0);
}

#[test]
fn energy_at_the_left_edge_counts_the_right_neighbour_only() {
    let grid = vec![vec![rgb(0, 0, 0), rgb(3, 4, 0)]];
    assert_eq!(calc_pixel_energy(0, 0, &grid), 5);
}

#[test]
fn energy_at_the_right_edge_counts_the_left_neighbour_only() {
    let grid = vec![vec![rgb(0, 0, 0), rgb(3, 4, 0), rgb(3, 4, 12)]];
    assert_eq!(calc_pixel_energy(2, 0, &grid), 12);
}

#[test]
fn energy_takes_one_root_of_both_gaps_together() {
    // 9 to the left and 16 to the right: the root of 25, not 3 + 4.
    let grid = vec![vec![rgb(3, 0, 0), rgb(0, 0, 0), rgb(0, 4, 0)]];
    assert_eq!(calc_pixel_energy(1, 0, &grid), 5);
    // 25 to the left and 144 to the right: the root of 169.
    let wider = vec![vec![rgb(0, 0, 0), rgb(3, 4, 0), rgb(3, 4, 12)]];
    assert_eq!(calc_pixel_energy(1, 0, &wider), 13);
}

#[test]
fn energy_rounds_the_root_down() {
    let two = vec![vec![rgb(0, 0, 0), rgb(1, 1, 0)]];
    assert_eq!(calc_pixel_energy(0, 0, &two), 1);
    let eight = vec![vec![rgb(0, 0, 0), rgb(2, 2, 0)]];
    assert_eq!(calc_pixel_energy(0, 0, &eight), 2);
    let twenty_six = vec![vec![rgb(0, 0, 0), rgb(5, 1, 0)]];
    assert_eq!(calc_pixel_energy(0, 0, &twenty_six), 5);
    let twenty_four = vec![vec![rgb(0, 0, 0), rgb(4, 2, 2)]];
    assert_eq!(calc_pixel_energy(0, 0, &twenty_four), 4);
}

#[test]
fn energy_is_the_same_in_both_directions() {
    let grid = vec![vec![rgb(200, 10, 0), rgb(0, 90, 30)]];
    // 200 * 200 + 80 * 80 + 30 * 30 = 47300, whose root is 217.4...
    assert_eq!(calc_pixel_energy(0, 0, &grid), 217);
    assert_eq!(calc_pixel_energy(1, 0, &grid), 217);
}

#[test]
fn energy_is_largest_between_black_and_white() {
    let grid = vec![vec![rgb(0, 0, 0), rgb(255, 255, 255), rgb(0, 0, 0)]];
    assert_eq!(calc_pixel_energy(1, 0, &grid), 624);
    assert_eq!(calc_pixel_energy(1, 0, &grid), MAX_ENERGY);
    assert_eq!(calc_pixel_energy(0, 0, &grid), 441);
    assert_eq!(calc_pixel_energy(2, 0, &grid), 441);
}

#[test]
fn energy_ignores_alpha() {
    let grid = vec![vec![
        BarePixel::new([7, 7, 7, 0]),
        BarePixel::new([7, 7, 7, 255]),
        BarePixel::new([7, 7, 7, 90]),
    ]];
    for x in 0..3 {
        assert_eq!(calc_pixel_energy(x, 0, &grid), 0);
    }
}

#[test]
fn energy_ignores_the_rows_above_and_below() {
    let grid = vec![
        vec![rgb(0, 0, 0), rgb(0, 0, 0)],
        vec![rgb(255, 255, 255), rgb(255, 255, 255)],
        vec![rgb(0, 0, 0), rgb(0, 0, 0)],
    ];
    for y in 0..3 {
        for x in 0..2 {
            assert_eq!(calc_pixel_energy(x, y, &grid), 0);
        }
    }
}

#[test]
fn energy_goes_by_the_length_of_its_own_row() {
    let grid = vec![vec![rgb(0, 0, 0)], vec![rgb(0, 0, 0), rgb(0, 6, 8)]];
    assert_eq!(calc_pixel_energy(0, 0, &grid), 0);
    assert_eq!(calc_pixel_energy(0, 1, &grid), 10);
}

#[test]
fn compute_energy_has_the_dimensions_of_the_grid() {
    let grid = vec![vec![rgb(1, 2, 3); 7]; 3];
    let energies = compute_energy(&grid);
    assert_eq!(energies.len(), 3);
    for row in &energies {
        assert_eq!(row.len(), 7);
    }
}

#[test]
fn compute_energy_holds_the_energy_of_each_pixel() {
    let grid = vec![
        vec![rgb(0, 0, 0), rgb(3, 4, 0), rgb(3, 4, 12)],
        vec![rgb(9, 9, 9), rgb(9, 9, 9), rgb(9, 9, 10)],
    ];
    let energies = compute_energy(&grid);
    assert_eq!(energies, vec![vec![5, 13, 12], vec![0, 1, 1]]);
    for y in 0..2 {
        for x in 0..3 {
            assert_eq!(energies[y][x], calc_pixel_energy(x, y, &grid));
        }
    }
}

#[test]
fn compute_energy_of_an_empty_grid_is_empty() {
    let grid: Vec<Vec<BarePixel>> = vec![];
    assert_eq!(compute_energy(&grid), Vec::<Vec<u64>>::new());
    let no_columns: Vec<Vec<BarePixel>> = vec![vec![], vec![]];
    assert_eq!(compute_energy(&no_columns), vec![Vec::<u64>::new(), Vec::<u64>::new()]);
}

#[test]
fn energy_never_exceeds_the_largest_energy() {
    let shades = [0u8, 1, 127, 128, 254, 255];
    for &left in &shades {
        for &middle in &shades {
            for &right in &shades {
                let grid = vec![vec![
                    rgb(left, left, left),
                    rgb(middle, middle, middle),
                    rgb(right, right, right),
                ]];
                for x in 0..3 {
                    assert!(calc_pixel_energy(x, 0, &grid) <= MAX_ENERGY);
                }
            }
        }
    }
}
