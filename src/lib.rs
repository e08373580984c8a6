//! Pattern catalog and constraint cells for an overlapping wave-function-collapse
//! texture synthesizer.
//!
//! The seed image gives a palette of colors and a catalog of square patterns
//! with their frequencies. The output grid holds one constraint cell per
//! pixel; the primitives here select the next cell to resolve, collapse it
//! with a weighted draw, and tell which patterns still fit at a position.

mod bits;
pub mod catalog;
pub mod cell;
pub mod color;
pub mod model;

pub use bits::count_true;
pub use catalog::{build_block_frequency_map, SeedImage};
pub use cell::{Entropy, UncertainCell};
pub use color::{build_color_palette, find_color, Rgb};
pub use model::{select_lowest_nonzero_entropy, CellEntropy, ModelError, OverlappingModel};
