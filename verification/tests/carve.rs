use seam_carving::carve::{carve_to_width, remove_seam, resize_once, CarveError};
use seam_carving::pixel::BarePixel;

fn px(r: u8, g: u8, b: u8, a: u8) -> BarePixel {
    BarePixel::new([r, g, b, a])
}

/// A grid whose pixels are grey and carry their number, counted row by row
/// from 1, in the alpha channel.
fn numbered(shades: &[&[u8]]) -> Vec<Vec<BarePixel>> {
    let mut number: u8 = 0;
    let mut grid = Vec::new();
    for row in shades {
        let mut pixels = Vec::new();
        for &shade in row.iter() {
            number += 1;
            pixels.push(px(shade, shade, shade, number));
        }
        grid.push(pixels);
    }
    grid
}

fn numbers(grid: &Vec<Vec<BarePixel>>) -> Vec<Vec<u8>> {
    grid.iter().map(|row| row.iter().map(|pixel| pixel.extract()[3]).collect()).collect()
}

#[test]
fn remove_seam_takes_one_pixel_from_each_row() {
    let grid = numbered(&[&[0, 0, 0], &[0, 0, 0]]);
    let carved = remove_seam(&grid, &vec![(1, 1), (1, 0)]).unwrap();
    assert_eq!(numbers(&carved), vec![vec![1, 3], vec![4, 6]]);
}

#[test]
fn remove_seam_narrows_the_grid_by_one_column() {
    let grid = numbered(&[&[0; 5], &[0; 5], &[0; 5], &[0; 5]]);
    let carved = remove_seam(&grid, &vec![(4, 3), (3, 2), (3, 1), (2, 0)]).unwrap();
    assert_eq!(carved.len(), 4);
    for row in &carved {
        assert_eq!(row.len(), 4);
    }
}

#[test]
fn remove_seam_keeps_the_other_pixels_in_their_order() {
    let grid = numbered(&[&[0; 4], &[0; 4], &[0; 4]]);
    let carved = remove_seam(&grid, &vec![(0, 2), (1, 1), (3, 0)]).unwrap();
    assert_eq!(numbers(&carved), vec![vec![1, 2, 3], vec![5, 7, 8], vec![10, 11, 12]]);
}

#[test]
fn remove_seam_keeps_the_pixels_unchanged() {
    let grid = vec![vec![px(1, 2, 3, 4), px(5, 6, 7, 8), px(9, 10, 11, 12)]];
    let carved = remove_seam(&grid, &vec![(1, 0)]).unwrap();
    assert_eq!(carved, vec![vec![px(1, 2, 3, 4), px(9, 10, 11, 12)]]);
    assert_eq!(carved[0][1].extract(), [9, 10, 11, 12]);
}

#[test]
fn remove_seam_leaves_its_input_alone() {
    let grid = numbered(&[&[0, 0], &[0, 0]]);
    let before = grid.clone();
    let _ = remove_seam(&grid, &vec![(0, 1), (1, 0)]).unwrap();
    assert_eq!(grid, before);
}

#[test]
fn remove_seam_takes_the_entries_in_any_order() {
    let grid = numbered(&[&[0; 3], &[0; 3], &[0; 3]]);
    let bottom_up = remove_seam(&grid, &vec![(2, 2), (1, 1), (0, 0)]).unwrap();
    let top_down = remove_seam(&grid, &vec![(0, 0), (1, 1), (2, 2)]).unwrap();
    let mixed = remove_seam(&grid, &vec![(1, 1), (2, 2), (0, 0)]).unwrap();
    assert_eq!(numbers(&bottom_up), vec![vec![2, 3], vec![4, 6], vec![7, 8]]);
    assert_eq!(top_down, bottom_up);
    assert_eq!(mixed, bottom_up);
}

#[test]
fn remove_seam_can_empty_a_grid_of_one_column() {
    let grid = numbered(&[&[0], &[0]]);
    let carved = remove_seam(&grid, &vec![(0, 1), (0, 0)]).unwrap();
    assert_eq!(carved, vec![Vec::<BarePixel>::new(), Vec::<BarePixel>::new()]);
}

#[test]
fn remove_seam_of_nothing_from_nothing_is_nothing() {
    let grid: Vec<Vec<BarePixel>> = vec![];
    assert_eq!(remove_seam(&grid, &vec![]), Ok(vec![]));
}

#[test]
fn remove_seam_rejects_a_seam_that_misses_a_row() {
    let grid = numbered(&[&[0; 3], &[0; 3]]);
    assert_eq!(remove_seam(&grid, &vec![(1, 1)]), Err(CarveError::InconsistentSeam));
    assert_eq!(remove_seam(&grid, &vec![(1, 0)]), Err(CarveError::InconsistentSeam));
    assert_eq!(remove_seam(&grid, &vec![]), Err(CarveError::InconsistentSeam));
}

#[test]
fn remove_seam_rejects_two_entries_in_one_row() {
    let grid = numbered(&[&[0; 3], &[0; 3]]);
    assert_eq!(remove_seam(&grid, &vec![(1, 1), (2, 1)]), Err(CarveError::InconsistentSeam));
    assert_eq!(
        remove_seam(&grid, &vec![(1, 1), (1, 0), (1, 0)]),
        Err(CarveError::InconsistentSeam)
    );
}

#[test]
fn remove_seam_rejects_a_row_outside_the_grid() {
    let grid = numbered(&[&[0; 3], &[0; 3]]);
    assert_eq!(remove_seam(&grid, &vec![(1, 2), (1, 0)]), Err(CarveError::InconsistentSeam));
    assert_eq!(
        remove_seam(&grid, &vec![(1, 1), (1, 0), (1, 2)]),
        Err(CarveError::InconsistentSeam)
    );
    let empty: Vec<Vec<BarePixel>> = vec![];
    assert_eq!(remove_seam(&empty, &vec![(0, 0)]), Err(CarveError::InconsistentSeam));
}

#[test]
fn remove_seam_rejects_a_column_outside_the_row() {
    let grid = numbered(&[&[0; 3], &[0; 3]]);
    assert_eq!(remove_seam(&grid, &vec![(3, 1), (1, 0)]), Err(CarveError::InconsistentSeam));
    assert_eq!(
        remove_seam(&grid, &vec![(1, 1), (usize::MAX, 0)]),
        Err(CarveError::InconsistentSeam)
    );
}

#[test]
fn resize_once_takes_out_the_seam_of_least_energy() {
    // Row 0 is flat but for its last pixel, row 1 but for its first.
    let grid = numbered(&[&[50, 50, 50, 90], &[10, 50, 50, 50]]);
    // Energies: 0, 0, 40, 40 and 40, 40, 0, 0. Costs of row 1: 665, 40, 0, 625.
    // The seam starts in column 2 and inherits from column 1.
    let carved = resize_once(&grid).unwrap();
    assert_eq!(numbers(&carved), vec![vec![1, 3, 4], vec![5, 6, 8]]);
}

#[test]
fn resize_once_fails_where_every_column_is_an_edge() {
    let grid = numbered(&[&[0, 0], &[0, 0]]);
    assert_eq!(resize_once(&grid), Err(CarveError::InconsistentSeam));
}

#[test]
fn resize_once_fails_where_every_seam_reaches_the_ceiling() {
    // Energies 441, 624, 441 in both rows: the only inner column of row 1
    // costs 441 + 624.
    let grid = numbered(&[&[0, 255, 0], &[0, 255, 0]]);
    assert_eq!(resize_once(&grid), Err(CarveError::InconsistentSeam));
}

#[test]
fn resize_once_adds_the_cheapest_cost_above() {
    // Energies 441, 441, 0 in both rows: the inner column of row 1 costs
    // 0 + 441 and inherits from column 2.
    let grid = numbered(&[&[0, 255, 255], &[0, 255, 255]]);
    let carved = resize_once(&grid).unwrap();
    assert_eq!(numbers(&carved), vec![vec![1, 2], vec![4, 6]]);
}

#[test]
fn carve_to_its_own_width_gives_the_same_pixels() {
    let grid = vec![
        vec![px(1, 2, 3, 4), px(200, 100, 0, 8), px(9, 10, 11, 12)],
        vec![px(13, 14, 15, 16), px(17, 18, 19, 20), px(0, 255, 0, 24)],
    ];
    assert_eq!(carve_to_width(&grid, 3), Ok(grid.clone()));
    let empty: Vec<Vec<BarePixel>> = vec![];
    assert_eq!(carve_to_width(&empty, 0), Ok(vec![]));
    let two_wide = numbered(&[&[0, 0], &[0, 0]]);
    assert_eq!(carve_to_width(&two_wide, 2), Ok(two_wide.clone()));
}

#[test]
fn carve_rejects_a_target_wider_than_the_grid() {
    let grid = numbered(&[&[0, 0, 0], &[0, 0, 0]]);
    let before = grid.clone();
    assert_eq!(carve_to_width(&grid, 4), Err(CarveError::TargetTooWide));
    assert_eq!(carve_to_width(&grid, usize::MAX), Err(CarveError::TargetTooWide));
    assert_eq!(grid, before);
    let empty: Vec<Vec<BarePixel>> = vec![];
    assert_eq!(carve_to_width(&empty, 1), Err(CarveError::TargetTooWide));
}

#[test]
fn carve_takes_the_flat_middle_column_out_of_three() {
    let a = px(10, 20, 30, 255);
    let b = px(10, 20, 30, 255);
    let c = px(10, 20, 30, 7);
    let d = px(200, 100, 50, 9);
    let e = px(200, 100, 50, 255);
    let f = px(200, 100, 50, 11);
    let grid = vec![vec![a, b, c], vec![d, e, f]];
    assert_eq!(carve_to_width(&grid, 2), Ok(vec![vec![a, c], vec![d, f]]));
}

#[test]
fn carve_keeps_the_rows_in_their_order() {
    let grid = numbered(&[&[10; 4], &[90; 4]]);
    // Every energy is 0: the seam starts in column 1 of the bottom row and
    // inherits from column 0 of the top row, in each step.
    let carved = carve_to_width(&grid, 2).unwrap();
    assert_eq!(numbers(&carved), vec![vec![3, 4], vec![5, 8]]);
    assert_eq!(carved[0][0].extract(), [10, 10, 10, 3]);
    assert_eq!(carved[1][1].extract(), [90, 90, 90, 8]);
}

#[test]
fn carve_narrows_a_single_row_to_the_target() {
    let grid = numbered(&[&[0, 10, 10, 10, 50]]);
    // Energies 10, 10, 0, 40, 40: pixel 3 leaves. Then 10, 10, 40, 40: pixel 1
    // leaves. Then 0, 40, 40: pixel 2 leaves.
    assert_eq!(numbers(&carve_to_width(&grid, 4).unwrap()), vec![vec![1, 2, 4, 5]]);
    assert_eq!(numbers(&carve_to_width(&grid, 3).unwrap()), vec![vec![2, 4, 5]]);
    assert_eq!(numbers(&carve_to_width(&grid, 2).unwrap()), vec![vec![4, 5]]);
    assert_eq!(numbers(&carve_to_width(&grid, 1).unwrap()), vec![vec![5]]);
}

#[test]
fn carve_can_take_every_column_of_a_single_row() {
    let grid = numbered(&[&[0, 10, 10, 10, 50]]);
    assert_eq!(carve_to_width(&grid, 0), Ok(vec![vec![]]));
}

#[test]
fn carve_reaches_the_target_width_and_keeps_the_height() {
    let grid = numbered(&[&[7; 9], &[7; 9], &[7; 9], &[7; 9]]);
    for target in 2..=9 {
        let carved = carve_to_width(&grid, target).unwrap();
        assert_eq!(carved.len(), 4);
        for row in &carved {
            assert_eq!(row.len(), target);
        }
    }
}

#[test]
fn carve_is_the_same_as_resizing_step_by_step() {
    let grid = numbered(&[&[7, 7, 9, 7, 7, 7], &[7, 7, 7, 7, 8, 7], &[7, 7, 7, 7, 7, 7]]);
    let mut stepwise = grid.clone();
    for _ in 0..3 {
        stepwise = resize_once(&stepwise).unwrap();
    }
    assert_eq!(carve_to_width(&grid, 3), Ok(stepwise));
}

#[test]
fn carve_fails_where_a_step_finds_no_seam() {
    let grid = numbered(&[&[10; 4], &[90; 4]]);
    assert_eq!(carve_to_width(&grid, 1), Err(CarveError::InconsistentSeam));
    let two_wide = numbered(&[&[0, 0], &[0, 0]]);
    assert_eq!(carve_to_width(&two_wide, 1), Err(CarveError::InconsistentSeam));
    assert_eq!(carve_to_width(&two_wide, 0), Err(CarveError::InconsistentSeam));
}
