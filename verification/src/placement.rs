//! The ways in which a forest can be planted.

use vstd::prelude::*;

verus! {

/// How the trees of a new forest are placed.
#[derive(Clone, Copy, Default, Debug, PartialEq, Eq, Structural)]
pub enum TreePlacement {
    /// Each cell gets a tree with the same probability.
    #[default]
    Uniform,
    /// A field of coherent noise decides where trees stand.
    Perlin,
}

impl TreePlacement {
    /// The name of the placement, as it is shown.
    pub fn label(&self) -> (text: &'static str)
        ensures
            text@ == match self {
                TreePlacement::Uniform => "Uniform"@,
                TreePlacement::Perlin => "Perlin noise"@,
            },
    {
        match self {
            TreePlacement::Uniform => "Uniform",
            TreePlacement::Perlin => "Perlin noise",
        }
    }
}

} // verus!
