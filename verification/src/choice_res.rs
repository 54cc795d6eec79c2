use crate::common::EntryId;
use vstd::prelude::*;

verus! {

/// The external actor's answer to a blocking query.
#[derive(Debug)]
pub enum ChoiceRes {
    /// Decline or cancel the pending question.
    Nothing,
    /// Pay a cost with these hand cards plus this many banked points.
    Cost { hands: Vec<EntryId>, real_point: usize },
    /// Spend this many banked points as direct-attack damage.
    FightDamageByRealPoint(usize),
}

} // verus!
