use crate::common::EntryId;
use vstd::prelude::*;

verus! {

/// What an effect or an attack is aimed at.
#[derive(Clone, Copy, Debug, PartialEq, Eq, Structural)]
pub enum Targeting {
    Nothing,
    TargetPlayerSelf,
    TargetPlayerOpponent,
    TargetCard(EntryId),
    TargetZone(EntryId),
}

/// Which side of the board a rule applies to.
#[derive(Clone, Copy, Debug, PartialEq, Eq, Structural)]
pub enum Side {
    BothSide,
    PlayerSelf,
    PlayerOpponent,
}

} // verus!
