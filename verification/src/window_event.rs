use crate::common::EntryId;
use crate::targeting::Targeting;
use vstd::prelude::*;

verus! {

/// A game occurrence that may trigger catalog-declared reactive effects.
#[derive(Clone, Copy, Debug, PartialEq, Eq, Structural)]
pub enum WindowEvent {
    /// A card's cost was paid.
    Cost { card: EntryId },
    /// A card entered a board slot.
    SetCard { card: EntryId },
    /// An attack was declared.
    Attack { source: Targeting, target: Targeting },
}

} // verus!
