//! Content-aware image narrowing by seam carving.
//!
//! A grid of pixels loses width one seam at a time. A seam is a path from the
//! bottom row to the top row, one pixel in each row; the seam that is taken out
//! is the one of least cumulative energy, where the energy of a pixel measures
//! how strongly its colour differs from its neighbours to the left and right.

pub mod carve;
pub mod energy;
pub mod grid;
pub mod pixel;
pub mod seam;

pub use carve::{carve_to_width, remove_seam, resize_once, CarveError};
pub use energy::{calc_pixel_energy, compute_energy};
pub use grid::{grid_width, in_bounds, is_rectangular};
pub use pixel::BarePixel;
pub use seam::{find_low_energy_seam, SeamEnergy};
