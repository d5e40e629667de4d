//! Paint-bucket flood fill over an RGBA pixel buffer, with a verified
//! explicit-stack traversal.
pub mod color;
pub mod fill;
pub mod pixel;
pub mod region;
pub mod theorems;

pub use color::{match_colors, match_tolerance};
pub use fill::{flood_fill, FillError};
pub use pixel::{get_pixel, set_pixel};
