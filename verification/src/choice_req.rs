use crate::common::EntryId;
use vstd::prelude::*;

verus! {

/// A blocking query the engine puts to the external actor.
#[derive(Clone, Copy, Debug, PartialEq, Eq, Structural)]
pub enum ChoiceReq {
    /// How shall the cost of playing this card be paid?
    Cost(EntryId),
}

} // verus!
