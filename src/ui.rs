//! Display settings.
use vstd::prelude::*;

verus! {

/// How the window is shown: a fixed size (width, height and tile size) or
/// full screen.
#[derive(Debug, Clone, Copy, PartialEq, Eq, Structural)]
pub enum DisplayMode {
    Fixed(u32, u32, u32),
    FullScreen,
}

} // verus!
