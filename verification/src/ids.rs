//! Identifiers of chips, pins and world objects.

use vstd::prelude::*;

verus! {

/// A chip placed in the simulation.
#[derive(Clone, Copy, Debug, PartialEq, Eq, Hash, Structural)]
pub struct ChipId(pub usize);

/// A pin of a placed chip.
#[derive(Clone, Copy, Debug, PartialEq, Eq, Hash, Structural)]
pub struct PinId(pub usize);

/// An object of the game world.
#[derive(Clone, Copy, Debug, PartialEq, Eq, Hash, Structural)]
pub struct ObjectId(pub usize);

} // verus!
