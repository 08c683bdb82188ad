use vstd::prelude::*;

verus! {

/// A side of the match. Factions own units and take turns in the order
/// in which the match lists them.
#[derive(Clone, Copy, Debug, PartialEq, Eq, Hash, PartialOrd, Ord, Structural)]
pub enum Faction {
    Red,
    Blue,
}

} // verus!
