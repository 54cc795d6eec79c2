use crate::common::PlayerId;
use crate::game::GamePhase;
use vstd::prelude::*;

verus! {

/// One recorded change of the match, appended to the in-memory diff log.
#[derive(Clone, Copy, Debug, PartialEq, Eq, Structural)]
pub enum GameDiff {
    /// The phase advanced; `player` owned the turn when it did.
    PhaseChanged { player: PlayerId, from: GamePhase, to: GamePhase },
}

} // verus!
