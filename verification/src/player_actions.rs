use crate::choice_req::ChoiceReq;
use crate::choice_res::ChoiceRes;
use crate::common::EntryId;
use crate::targeting::Targeting;
use vstd::prelude::*;

verus! {

/// The line-oriented command surface the match is driven by. The engine only
/// depends on these call-out shapes; an implementation lives outside the
/// verified core and performs the actual reading.
pub trait ReadPlayerActions {
    /// Read and dispatch actions during a main phase until a pass.
    fn read_action_main(&mut self);

    /// Read and dispatch attack actions during the fight phase until a pass.
    fn read_action_fight(&mut self);

    /// Ask whether banked points are spent as direct-attack damage.
    fn read_fight_damage(&mut self) -> ChoiceRes;

    /// Ask a blocking question and wait for the answer.
    fn read_choice(&mut self, choice: ChoiceReq) -> ChoiceRes;

    /// Ask which entries are recycled, up to the given limit.
    fn read_reuse_choice(&mut self, targeting: Targeting, limit: usize) -> Vec<EntryId>;

    /// Show the command summary for a main phase.
    fn help_main(&self);
}

/// An externally-issued action on the match.
#[derive(Clone, Copy, Debug, PartialEq, Eq, Structural)]
pub enum PlayerAction {
    /// Play the card from hand into the named board slot.
    SetCard { card_id: EntryId, zone_id: EntryId },
    /// Activate a card's effect (not wired to anything yet).
    EffectCard { card_id: EntryId },
    /// Attack with the source slot against the target.
    AttackCard { source: Targeting, target: Targeting },
    /// Decline to act.
    Pass,
}

} // verus!
