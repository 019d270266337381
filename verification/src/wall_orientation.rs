//! The two ways in which a wall can lie.

use vstd::prelude::*;

verus! {

/// The way a wall lies in its slot. An empty slot holds no orientation.
#[derive(Copy, Clone, Debug, PartialEq, Eq, Structural)]
pub enum WallOrientation {
    Vertical,
    Horizontal,
}

impl WallOrientation {
    /// The name of the orientation.
    pub fn name(&self) -> (s: &'static str)
        ensures
            s@ == (match *self {
                WallOrientation::Vertical => "Vertical"@,
                WallOrientation::Horizontal => "Horizontal"@,
            }),
    {
        match self {
            WallOrientation::Vertical => "Vertical",
            WallOrientation::Horizontal => "Horizontal",
        }
    }
}

} // verus!
