//! Sizes counted in cells.

use vstd::prelude::*;

verus! {

/// A pair of counts: so many across, so many down.
#[derive(Debug, Clone, Copy)]
pub struct Vec2u {
    pub x: u32,
    pub y: u32,
}

} // verus!
