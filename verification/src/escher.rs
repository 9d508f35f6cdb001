//! Escher-style tessellation kinds and the generator handle.

use vstd::prelude::*;

verus! {

/// Which Escher-inspired tessellation style to produce.
#[derive(Debug, Clone, PartialEq, Eq, Structural)]
pub enum TessellationType {
    RegularDivision,
    LizardPattern,
    FishPattern,
    BirdPattern,
    SymmetryGroup(u8),
}

/// Generator of Escher-style tilings.
pub struct EscherGenerator;

impl EscherGenerator {
    /// A generator.
    pub fn new() -> (g: Self)
        ensures
            g == EscherGenerator,
    {
        EscherGenerator
    }
}

} // verus!
