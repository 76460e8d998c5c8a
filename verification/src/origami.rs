//! Fold-line kinds of origami crease patterns.
use vstd::prelude::*;

verus! {

/// The type of a fold line in a crease pattern.
#[derive(Debug, Clone, Copy, PartialEq, Eq, Structural)]
pub enum CreaseType {
    /// Mountain fold (fold toward viewer).
    Mountain,
    /// Valley fold (fold away from viewer).
    Valley,
    /// Flat / reference crease (no fold).
    Flat,
}

impl CreaseType {
    /// Standard origami diagram symbol.
    pub fn symbol(self) -> (c: char)
        ensures
            c == match self {
                CreaseType::Mountain => 'M',
                CreaseType::Valley => 'V',
                CreaseType::Flat => 'F',
            },
    {
        match self {
            CreaseType::Mountain => 'M',
            CreaseType::Valley => 'V',
            CreaseType::Flat => 'F',
        }
    }
}

} // verus!
