use crate::common::{CardInfoId, PlayerId};
use vstd::prelude::*;

verus! {

/// A participant of the match: an index and the deck list they brought.
#[derive(Debug)]
pub struct Player {
    pub id: PlayerId,
    pub player_desk: PlayerDesk,
}

/// An ordered list of card-definition ids; duplicates are allowed.
#[derive(Debug)]
pub struct PlayerDesk(pub Vec<CardInfoId>);

impl View for PlayerDesk {
    type V = Seq<Seq<char>>;

    open spec fn view(&self) -> Seq<Seq<char>> {
        self.0.deep_view()
    }
}

/// Mathematical shape of a `Player`.
pub ghost struct PlayerModel {
    pub id: PlayerId,
    pub desk: Seq<Seq<char>>,
}

impl View for Player {
    type V = PlayerModel;

    open spec fn view(&self) -> PlayerModel {
        PlayerModel { id: self.id, desk: self.player_desk@ }
    }
}

impl Clone for PlayerDesk {
    fn clone(&self) -> (r: Self)
        ensures
            r@ == self@,
    {
        let r = PlayerDesk(self.0.clone());
        proof {
            assert(r@ =~= self@);
        }
        r
    }
}

impl Clone for Player {
    fn clone(&self) -> (r: Self)
        ensures
            r@ == self@,
    {
        Player { id: self.id, player_desk: self.player_desk.clone() }
    }
}

} // verus!
