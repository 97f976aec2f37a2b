//! Minimal-displacement and minimal-area searches for a generalised leaper,
//! a piece that moves by a fixed vector (a, b) up to reflection and rotation.

pub mod area;
pub mod bounding;
pub mod displacement;
pub mod enumerate;
pub mod moves;

pub use area::{get_min_rect_area, min_area_among, path_area};
pub use bounding::ComplexBox;
pub use displacement::{best_displacement, get_min_displacement, DispAndMoves};
pub use moves::{check_for_inverses, move_to_complex, net_displacement, GaussInt};
