//! Field of view and lighting for a 2-D tile grid.
//!
//! Visibility is computed with restrictive precise angle shadowcasting over the
//! eight octants around an observer (`caster`, `fov`); point lights reuse the same
//! scan to color the cells in view (`light`). Every quantity is exact integer
//! arithmetic: angles are rationals, opacity is counted in hundredths and
//! distances are compared squared.
pub mod actor;
pub mod builders;
pub mod caster;
pub mod color;
pub mod fov;
pub mod grid;
pub mod light;
pub mod mob;
pub mod ui;
pub mod vision;

pub use color::Color;
pub use grid::{Grid, Pos};
