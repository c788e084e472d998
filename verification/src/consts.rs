//! Shared constants of program space.

use vstd::prelude::*;

verus! {

/// Width of program space.
pub const WIDTH: usize = 80;

/// Height of program space.
pub const HEIGHT: usize = 25;

/// Number of cells in program space.
pub const AREA: usize = 2000;

} // verus!
