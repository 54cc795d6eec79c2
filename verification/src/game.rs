use crate::card::{
    cards_model, lemma_found_count_bound, lemma_init_cards_ids, spec_found_count, spec_init_cards,
    Card, CardInfoModel, CardModel,
};
use crate::lua_api::LuaApi;
use crate::common::{EntryId, IdGenerator, PlayerId};
use crate::effect::{effs_model, eff_tree, DoEffect, EffTree};
use crate::game_diff::GameDiff;
use crate::model::{
    apply_action, apply_add_point_state, flash_zones, lemma_zone_idx, reset_counter,
    reset_counters_list, apply_damage_state, apply_draw_state, apply_set_state,
    apply_use_point_state, card_idx, counter_down, counter_up, destroy_side, lemma_card_idx,
    lemma_run_steps_succ, lemma_wf_update_cards, lemma_wf_update_state, onset_list, quiescent,
    remove_all, run_steps, set_flag, spec_next_player, step, wf_model, zone_idx,
    GameModel, GameStateModel, ZoneModel,
};
use crate::effect::{eff_tree_seq, lemma_effs_model, Action, WindowsTag};
use crate::player::Player;
use crate::player_actions::PlayerAction;
use crate::choice_res::ChoiceRes;
use crate::targeting::Targeting;
use crate::window_event::WindowEvent;
use rand::seq::SliceRandom;
use rand::thread_rng;
use std::collections::VecDeque;
use vstd::math::min;
use vstd::prelude::*;

verus! {

/// The phase of a turn. The order is a fixed cycle; a full cycle belongs to
/// one turn owner.
#[derive(Clone, Copy, Debug, PartialEq, Eq, Structural)]
pub enum GamePhase {
    Start,
    Draw,
    Reuse,
    Main,
    Fight,
    Main2,
    End,
}

/// The successor of a phase in the fixed cycle.
pub open spec fn spec_phase_next(p: GamePhase) -> GamePhase {
    match p {
        GamePhase::Start => GamePhase::Draw,
        GamePhase::Draw => GamePhase::Reuse,
        GamePhase::Reuse => GamePhase::Main,
        GamePhase::Main => GamePhase::Fight,
        GamePhase::Fight => GamePhase::Main2,
        GamePhase::Main2 => GamePhase::End,
        GamePhase::End => GamePhase::Start,
    }
}

impl GamePhase {
    pub fn next(phase: &GamePhase) -> (r: GamePhase)
        ensures
            r == spec_phase_next(*phase),
    {
        match phase {
            GamePhase::Start => GamePhase::Draw,
            GamePhase::Draw => GamePhase::Reuse,
            GamePhase::Reuse => GamePhase::Main,
            GamePhase::Main => GamePhase::Fight,
            GamePhase::Fight => GamePhase::Main2,
            GamePhase::Main2 => GamePhase::End,
            GamePhase::End => GamePhase::Start,
        }
    }
}

/// A board slot: an id and the ordered cards sitting in it. Front-row slots
/// fight; back-row slots do not.
#[derive(Debug)]
pub enum Zone {
    FrontEnd { id: EntryId, cards: Vec<EntryId> },
    BackEnd { id: EntryId, cards: Vec<EntryId> },
}

impl View for Zone {
    type V = ZoneModel;

    open spec fn view(&self) -> ZoneModel {
        match self {
            Zone::FrontEnd { id, cards } => ZoneModel { front: true, id: *id, cards: cards@ },
            Zone::BackEnd { id, cards } => ZoneModel { front: false, id: *id, cards: cards@ },
        }
    }
}

pub open spec fn zones_model(s: Seq<Zone>) -> Seq<ZoneModel> {
    Seq::new(s.len(), |i: int| s[i]@)
}

/// Clones a list of entry ids, keeping the exact sequence.
pub(crate) fn clone_ids(v: &Vec<EntryId>) -> (r: Vec<EntryId>)
    ensures
        r@ == v@,
{
    let r = v.clone();
    proof {
        assert(r@ =~= v@);
    }
    r
}

impl Clone for Zone {
    fn clone(&self) -> (r: Self)
        ensures
            r@ == self@,
    {
        match self {
            Zone::FrontEnd { id, cards } => Zone::FrontEnd { id: *id, cards: clone_ids(cards) },
            Zone::BackEnd { id, cards } => Zone::BackEnd { id: *id, cards: clone_ids(cards) },
        }
    }
}

/// The fresh board of one player: four front-row slots, then four back-row
/// slots, with ids handed out in order starting after `g`.
pub open spec fn spec_zone_init(g: int) -> Seq<ZoneModel> {
    Seq::new(
        8,
        |i: int| ZoneModel { front: i < 4, id: (g + i + 1) as usize, cards: Seq::empty() },
    )
}

impl Zone {
    /// Lays out one player's fresh board.
    pub fn init(id_generator: &mut IdGenerator) -> (r: Vec<Zone>)
        requires
            old(id_generator).0 + 8 <= usize::MAX,
        ensures
            zones_model(r@) == spec_zone_init(old(id_generator).0 as int),
            final(id_generator).0 == old(id_generator).0 + 8,
    {
        let ghost g = id_generator.0 as int;
        let mut ret: Vec<Zone> = Vec::new();
        let mut i: usize = 0;
        while i < 4
            invariant
                0 <= i <= 4,
                id_generator.0 == g + i,
                g + 8 <= usize::MAX,
                ret@.len() == i,
                forall|j: int| 0 <= j < i ==> zones_model(ret@)[j] == spec_zone_init(g)[j],
            decreases 4 - i,
        {
            ret.push(Zone::FrontEnd { id: id_generator.next(), cards: Vec::new() });
            i = i + 1;
        }
        let mut i: usize = 4;
        while i < 8
            invariant
                4 <= i <= 8,
                id_generator.0 == g + i,
                g + 8 <= usize::MAX,
                ret@.len() == i,
                forall|j: int| 0 <= j < i ==> zones_model(ret@)[j] == spec_zone_init(g)[j],
            decreases 8 - i,
        {
            ret.push(Zone::BackEnd { id: id_generator.next(), cards: Vec::new() });
            i = i + 1;
        }
        proof {
            assert(zones_model(ret@) =~= spec_zone_init(g));
        }
        ret
    }

    /// Whether this slot carries the given id.
    pub fn has_id(&self, zone_id: EntryId) -> (r: bool)
        ensures
            r == (self@.id == zone_id),
    {
        match self {
            Zone::FrontEnd { id, cards } => *id == zone_id,
            Zone::BackEnd { id, cards } => *id == zone_id,
        }
    }

    /// Whether any card sits in this slot.
    pub fn has_cards(&self) -> (r: bool)
        ensures
            r == (self@.cards.len() > 0),
    {
        match self {
            Zone::FrontEnd { id, cards } => cards.len() > 0,
            Zone::BackEnd { id, cards } => cards.len() > 0,
        }
    }
}

/// One player's mutable side of the match.
#[derive(Debug)]
pub struct GameState {
    player_id: PlayerId,
    hp: usize,
    real_point: usize,
    desk: Vec<EntryId>,
    hand: Vec<EntryId>,
    cost: Vec<EntryId>,
    grave: Vec<EntryId>,
    zone: Vec<Zone>,
}

impl View for GameState {
    type V = GameStateModel;

    closed spec fn view(&self) -> GameStateModel {
        GameStateModel {
            player_id: self.player_id,
            hp: self.hp,
            real_point: self.real_point,
            desk: self.desk@,
            hand: self.hand@,
            cost: self.cost@,
            grave: self.grave@,
            zone: zones_model(self.zone@),
        }
    }
}

impl GameState {
    /// A fresh side: full life, no banked points, the given instances as the
    /// deck in order, and an empty board.
    pub fn new(player_id: PlayerId, cards: &Vec<Card>, id_generator: &mut IdGenerator) -> (r:
        GameState)
        requires
            old(id_generator).0 + 8 <= usize::MAX,
        ensures
            r@ == (GameStateModel {
                player_id,
                hp: 6,
                real_point: 0,
                desk: Seq::new(cards@.len(), |i: int| cards@[i].entry_id),
                hand: Seq::empty(),
                cost: Seq::empty(),
                grave: Seq::empty(),
                zone: spec_zone_init(old(id_generator).0 as int),
            }),
            final(id_generator).0 == old(id_generator).0 + 8,
    {
        let mut desk: Vec<EntryId> = Vec::new();
        let mut i: usize = 0;
        while i < cards.len()
            invariant
                0 <= i <= cards@.len(),
                desk@.len() == i,
                forall|j: int| 0 <= j < i ==> desk@[j] == cards@[j].entry_id,
            decreases cards@.len() - i,
        {
            desk.push(cards[i].entry_id);
            i = i + 1;
        }
        let r = GameState {
            player_id,
            hp: 6,
            real_point: 0,
            desk,
            hand: Vec::new(),
            cost: Vec::new(),
            grave: Vec::new(),
            zone: Zone::init(id_generator),
        };
        proof {
            assert(r@.desk =~= Seq::new(cards@.len(), |i: int| cards@[i].entry_id));
            assert(r@ =~= (GameStateModel {
                player_id,
                hp: 6,
                real_point: 0,
                desk: Seq::new(cards@.len(), |i: int| cards@[i].entry_id),
                hand: Seq::empty(),
                cost: Seq::empty(),
                grave: Seq::empty(),
                zone: spec_zone_init(old(id_generator).0 as int),
            }));
        }
        r
    }

    pub fn player_id(&self) -> (r: PlayerId)
        ensures
            r == self@.player_id,
    {
        self.player_id
    }

    /// Relies on rand's `SliceRandom::shuffle`, a Fisher-Yates swap loop: the
    /// deck is permuted in place, so exactly the previous entries remain, in
    /// some order that depends on the thread's generator.
    #[verifier::external_body]
    pub fn shuffle(&mut self)
        ensures
            final(self)@.player_id == old(self)@.player_id,
            final(self)@.hp == old(self)@.hp,
            final(self)@.real_point == old(self)@.real_point,
            final(self)@.hand == old(self)@.hand,
            final(self)@.cost == old(self)@.cost,
            final(self)@.grave == old(self)@.grave,
            final(self)@.zone == old(self)@.zone,
            final(self)@.desk.len() == old(self)@.desk.len(),
            final(self)@.desk.to_multiset() == old(self)@.desk.to_multiset(),
    {
        self.desk.shuffle(&mut thread_rng());
    }

    /// Draws up to `num` cards from the deck tail into the hand; a short deck
    /// gives all it has.
    pub fn draw(&mut self, num: usize)
        ensures
            final(self)@ == apply_draw_state(old(self)@, num),
    {
        let ghost orig = self@;
        let ghost len0 = orig.desk.len() as int;
        let mut i: usize = 0;
        while i < num
            invariant
                0 <= i <= num,
                self@.player_id == orig.player_id,
                self@.hp == orig.hp,
                self@.real_point == orig.real_point,
                self@.cost == orig.cost,
                self@.grave == orig.grave,
                self@.zone == orig.zone,
                len0 == orig.desk.len(),
                self@.desk == orig.desk.subrange(0, len0 - min(i as int, len0)),
                self@.hand == orig.hand + orig.desk.subrange(
                    len0 - min(i as int, len0),
                    len0,
                ).reverse(),
            decreases num - i,
        {
            let ghost k = min(i as int, len0);
            match self.desk.pop() {
                Option::Some(entry_id) => {
                    self.hand.push(entry_id);
                    proof {
                        assert(k < len0);
                        assert(min((i + 1) as int, len0) == k + 1);
                        assert(self@.desk =~= orig.desk.subrange(0, len0 - (k + 1)));
                        assert(self@.hand =~= orig.hand + orig.desk.subrange(
                            len0 - (k + 1),
                            len0,
                        ).reverse());
                    }
                },
                Option::None => {
                    proof {
                        assert(k == len0);
                        assert(min((i + 1) as int, len0) == len0);
                    }
                },
            }
            i = i + 1;
        }
        proof {
            let k = min(num as int, len0);
            assert(min(i as int, len0) == k);
            assert(self@ =~= apply_draw_state(orig, num));
        }
    }
}


/// Every occurrence of a member of `xs` removed from `s`, order kept.
pub open spec fn retain_not_in(s: Seq<EntryId>, xs: Seq<EntryId>) -> Seq<EntryId>
    decreases s.len(),
{
    if s.len() <= 0 {
        Seq::empty()
    } else {
        retain_not_in(s.drop_last(), xs) + (if xs.contains(s.last()) {
            Seq::<EntryId>::empty()
        } else {
            seq![s.last()]
        })
    }
}

/// Whether a hand of `hand_len` cards, a cost area with `cost_len` of its 6
/// slots used, and `pool` banked points can pay `cost`: hand cards count only
/// up to the free cost-area slots.
pub open spec fn spec_can_afford(hand_len: int, cost_len: int, pool: int, cost: int) -> bool {
    min(
        hand_len,
        if cost_len <= 6 {
            6 - cost_len
        } else {
            0
        },
    ) + pool >= cost
}

pub(crate) fn vec_contains(v: &Vec<EntryId>, x: EntryId) -> (r: bool)
    ensures
        r == v@.contains(x),
{
    let mut i: usize = 0;
    while i < v.len()
        invariant
            0 <= i <= v@.len(),
            forall|j: int| 0 <= j < i ==> v@[j] != x,
        decreases v@.len() - i,
    {
        if v[i] == x {
            return true;
        }
        i = i + 1;
    }
    false
}

impl GameState {
    /// Moves the chosen hand cards to the cost area and spends the chosen
    /// banked points; what is spent must be there.
    fn pay_cost(&mut self, hands: &Vec<EntryId>, real_point: usize)
        requires
            real_point <= old(self)@.real_point,
        ensures
            final(self)@ == (GameStateModel {
                hand: retain_not_in(old(self)@.hand, hands@),
                cost: old(self)@.cost + hands@,
                real_point: (old(self)@.real_point - real_point) as usize,
                ..old(self)@
            }),
    {
        let ghost orig = self@;
        let mut new_hand: Vec<EntryId> = Vec::new();
        let mut i: usize = 0;
        proof {
            assert(orig.hand.subrange(0, 0) =~= Seq::<EntryId>::empty());
            assert(new_hand@ =~= retain_not_in(orig.hand.subrange(0, 0), hands@));
        }
        while i < self.hand.len()
            invariant
                0 <= i <= self.hand@.len(),
                self@ == orig,
                new_hand@ == retain_not_in(orig.hand.subrange(0, i as int), hands@),
            decreases self.hand@.len() - i,
        {
            let ghost pre = orig.hand.subrange(0, i as int);
            let ghost pre1 = orig.hand.subrange(0, i + 1);
            proof {
                assert(pre1.drop_last() =~= pre);
                assert(pre1.last() == orig.hand[i as int]);
            }
            if !vec_contains(hands, self.hand[i]) {
                new_hand.push(self.hand[i]);
                proof {
                    assert(new_hand@ =~= retain_not_in(pre, hands@) + seq![orig.hand[i as int]]);
                }
            }
            i = i + 1;
        }
        proof {
            assert(orig.hand.subrange(0, orig.hand.len() as int) =~= orig.hand);
        }
        self.hand = new_hand;
        let mut j: usize = 0;
        let ghost cost0 = self.cost@;
        proof {
            assert(self.cost@ =~= cost0 + hands@.subrange(0, 0));
        }
        while j < hands.len()
            invariant
                0 <= j <= hands@.len(),
                self@.player_id == orig.player_id,
                self@.hp == orig.hp,
                self@.real_point == orig.real_point,
                self@.desk == orig.desk,
                self@.grave == orig.grave,
                self@.zone == orig.zone,
                self@.hand == retain_not_in(orig.hand, hands@),
                cost0 == orig.cost,
                self.cost@ == cost0 + hands@.subrange(0, j as int),
            decreases hands@.len() - j,
        {
            self.cost.push(hands[j]);
            proof {
                assert(cost0 + hands@.subrange(0, j as int) + seq![hands@[j as int]] =~= cost0
                    + hands@.subrange(0, j + 1));
            }
            j = j + 1;
        }
        self.real_point = self.real_point - real_point;
        proof {
            assert(hands@.subrange(0, hands@.len() as int) =~= hands@);
            assert(self@ =~= (GameStateModel {
                hand: retain_not_in(orig.hand, hands@),
                cost: orig.cost + hands@,
                real_point: (orig.real_point - real_point) as usize,
                ..orig
            }));
        }
    }

    /// Places a card: clears it from the cost area and appends it to every
    /// slot carrying the id; a reference no slot resolves returns the card to
    /// the hand. Reports whether the reference resolved.
    fn place_card(&mut self, card_id: EntryId, zone_id: EntryId) -> (flag: bool)
        ensures
            final(self)@ == apply_set_state(old(self)@, card_id, zone_id),
            flag == set_flag(old(self)@, zone_id),
    {
        let ghost orig = self@;
        let mut new_cost: Vec<EntryId> = Vec::new();
        let mut i: usize = 0;
        proof {
            assert(orig.cost.subrange(0, 0) =~= Seq::<EntryId>::empty());
            assert(new_cost@ =~= remove_all(orig.cost.subrange(0, 0), card_id));
        }
        while i < self.cost.len()
            invariant
                0 <= i <= self.cost@.len(),
                self@ == orig,
                new_cost@ == remove_all(orig.cost.subrange(0, i as int), card_id),
            decreases self.cost@.len() - i,
        {
            let ghost pre = orig.cost.subrange(0, i as int);
            let ghost pre1 = orig.cost.subrange(0, i + 1);
            proof {
                assert(pre1.drop_last() =~= pre);
                assert(pre1.last() == orig.cost[i as int]);
            }
            if self.cost[i] != card_id {
                new_cost.push(self.cost[i]);
                proof {
                    assert(new_cost@ =~= remove_all(pre, card_id) + seq![orig.cost[i as int]]);
                }
            }
            i = i + 1;
        }
        proof {
            assert(orig.cost.subrange(0, orig.cost.len() as int) =~= orig.cost);
        }
        self.cost = new_cost;
        let mut flag = false;
        let mut k: usize = 0;
        while k < self.zone.len()
            invariant
                0 <= k <= self.zone@.len(),
                self.zone@.len() == orig.zone.len(),
                self@.player_id == orig.player_id,
                self@.hp == orig.hp,
                self@.real_point == orig.real_point,
                self@.desk == orig.desk,
                self@.hand == orig.hand,
                self@.grave == orig.grave,
                self@.cost == remove_all(orig.cost, card_id),
                forall|j: int|
                    0 <= j < k ==> self@.zone[j] == (if orig.zone[j].id == zone_id {
                        ZoneModel { cards: orig.zone[j].cards.push(card_id), ..orig.zone[j] }
                    } else {
                        orig.zone[j]
                    }),
                forall|j: int| k <= j < orig.zone.len() ==> self@.zone[j] == orig.zone[j],
                flag == exists|j: int| 0 <= j < k && orig.zone[j].id == zone_id,
            decreases self.zone@.len() - k,
        {
            let ghost zpre = self@.zone;
            let ghost zv0 = self.zone@;
            let mut z = self.zone.remove(k);
            let ghost zk = z@;
            proof {
                assert(zk == orig.zone[k as int]);
            }
            match &mut z {
                Zone::FrontEnd { id, cards } => {
                    if *id == zone_id {
                        cards.push(card_id);
                        flag = true;
                    }
                },
                Zone::BackEnd { id, cards } => {
                    if *id == zone_id {
                        cards.push(card_id);
                        flag = true;
                    }
                },
            }
            proof {
                assert(z@ == (if zk.id == zone_id {
                    ZoneModel { cards: zk.cards.push(card_id), ..zk }
                } else {
                    zk
                }));
            }
            let ghost z2 = z@;
            self.zone.insert(k, z);
            proof {
                assert(self.zone@ =~= zv0.update(k as int, self.zone@[k as int]));
                assert(self.zone@[k as int]@ == z2);
                assert(self@.zone[k as int] == z2);
                assert forall|j: int| 0 <= j < orig.zone.len() && j != k implies self@.zone[j]
                    == zpre[j] by {
                    assert(self.zone@[j] == zv0[j]);
                }
                assert forall|j: int| 0 <= j < k + 1 implies self@.zone[j] == (if orig.zone[j].id
                    == zone_id {
                    ZoneModel { cards: orig.zone[j].cards.push(card_id), ..orig.zone[j] }
                } else {
                    orig.zone[j]
                }) by {
                    if j == k {
                        assert(self@.zone[j] == z2);
                        assert(z2 == (if orig.zone[j].id == zone_id {
                            ZoneModel { cards: orig.zone[j].cards.push(card_id), ..orig.zone[j] }
                        } else {
                            orig.zone[j]
                        }));
                    } else {
                        assert(self@.zone[j] == zpre[j]);
                    }
                }
            }
            k = k + 1;
        }
        if !flag {
            let ghost pre_push = self@;
            proof {
                assert(k == orig.zone.len());
                assert(forall|j: int| 0 <= j < k ==> orig.zone[j].id != zone_id);
                assert(!set_flag(orig, zone_id));
                assert forall|j: int| 0 <= j < orig.zone.len() implies pre_push.zone[j]
                    == orig.zone[j] by {
                    assert(orig.zone[j].id != zone_id);
                }
                assert(pre_push.zone =~= orig.zone);
            }
            self.hand.push(card_id);
            proof {
                assert(self@ =~= (GameStateModel {
                    hand: pre_push.hand.push(card_id),
                    ..pre_push
                }));
                assert(self@ =~= apply_set_state(orig, card_id, zone_id));
            }
        } else {
            proof {
                assert(set_flag(orig, zone_id));
                assert(self@ =~= apply_set_state(orig, card_id, zone_id));
            }
        }
        flag
    }
}

impl GameState {
    /// Damage with point-pool absorption near zero hp.
    fn apply_damage(&mut self, n: usize)
        ensures
            final(self)@ == apply_damage_state(old(self)@, n),
    {
        let ghost orig = self@;
        if self.hp > n {
            self.hp = self.hp - n;
        } else if self.real_point > n - self.hp {
            let pay = n - self.hp + 1;
            self.real_point = self.real_point - pay;
            self.hp = 1;
        } else {
            self.hp = 0;
            self.real_point = 0;
        }
        proof {
            assert(self@ =~= apply_damage_state(orig, n));
        }
    }

    /// Adds banked points; an increment past the representable range is
    /// refused whole so the pool never wraps.
    fn apply_add_point(&mut self, n: usize)
        ensures
            final(self)@ == apply_add_point_state(old(self)@, n),
    {
        let ghost orig = self@;
        if self.real_point <= usize::MAX - n {
            self.real_point = self.real_point + n;
        }
        proof {
            assert(self@ =~= apply_add_point_state(orig, n));
        }
    }

    /// Spends banked points; a pool shorter than `n` is left untouched.
    fn apply_use_point(&mut self, n: usize)
        ensures
            final(self)@ == apply_use_point_state(old(self)@, n),
    {
        let ghost orig = self@;
        if self.real_point >= n {
            self.real_point = self.real_point - n;
        }
        proof {
            assert(self@ =~= apply_use_point_state(orig, n));
        }
    }

    /// Empties the first slot carrying the id and hands its cards back.
    fn take_zone_cards(&mut self, zone_id: EntryId) -> (r: Vec<EntryId>)
        ensures
            ({
                let j = crate::model::zone_idx(old(self)@.zone, zone_id);
                if j < 0 {
                    final(self)@ == old(self)@ && r@ == Seq::<EntryId>::empty()
                } else {
                    final(self)@ == (GameStateModel {
                        zone: old(self)@.zone.update(
                            j,
                            ZoneModel { cards: Seq::empty(), ..old(self)@.zone[j] },
                        ),
                        ..old(self)@
                    }) && r@ == old(self)@.zone[j].cards
                }
            }),
    {
        let ghost orig = self@;
        proof {
            crate::model::lemma_zone_idx(orig.zone, zone_id);
        }
        let mut i: usize = 0;
        while i < self.zone.len()
            invariant
                0 <= i <= self.zone@.len(),
                orig == old(self)@,
                self@ == orig,
                forall|j: int| 0 <= j < i ==> orig.zone[j].id != zone_id,
            decreases self.zone@.len() - i,
        {
            if self.zone[i].has_id(zone_id) {
                let ghost zv0 = self.zone@;
                let z = self.zone.remove(i);
                let (ret, empty_zone) = match z {
                    Zone::FrontEnd { id, cards } => (cards, Zone::FrontEnd {
                        id,
                        cards: Vec::new(),
                    }),
                    Zone::BackEnd { id, cards } => (cards, Zone::BackEnd { id, cards: Vec::new() }),
                };
                self.zone.insert(i, empty_zone);
                proof {
                    crate::model::lemma_zone_idx(orig.zone, zone_id);
                    let idx = crate::model::zone_idx(orig.zone, zone_id);
                    assert(orig.zone[i as int].id == zone_id);
                    assert(idx >= 0) by {
                        if idx == -1 {
                            assert(orig.zone[i as int].id != zone_id);
                        }
                    }
                    assert(idx >= i as int) by {
                        if idx < i as int {
                            assert(orig.zone[idx].id == zone_id);
                        }
                    }
                    assert(idx <= i as int) by {
                        if idx > i as int {
                            assert(orig.zone[i as int].id != zone_id);
                        }
                    }
                    assert(crate::model::zone_idx(orig.zone, zone_id) == i as int);
                    assert(self.zone@ =~= zv0.update(i as int, self.zone@[i as int]));
                    assert(self.zone@[i as int]@ == (ZoneModel {
                        cards: Seq::empty(),
                        ..orig.zone[i as int]
                    }));
                    assert(self@ =~= (GameStateModel {
                        zone: orig.zone.update(
                            i as int,
                            ZoneModel { cards: Seq::empty(), ..orig.zone[i as int] },
                        ),
                        ..orig
                    }));
                    assert(ret@ == orig.zone[i as int].cards);
                }
                return ret;
            }
            i = i + 1;
        }
        proof {
            assert(crate::model::zone_idx(orig.zone, zone_id) == -1);
        }
        Vec::new()
    }

    /// Appends destroyed cards to the graveyard.
    fn extend_grave(&mut self, cards: &Vec<EntryId>)
        ensures
            final(self)@ == (GameStateModel { grave: old(self)@.grave + cards@, ..old(self)@ }),
    {
        let ghost orig = self@;
        let mut i: usize = 0;
        proof {
            assert(self@.grave =~= orig.grave + cards@.subrange(0, 0));
        }
        while i < cards.len()
            invariant
                0 <= i <= cards@.len(),
                self@.player_id == orig.player_id,
                self@.hp == orig.hp,
                self@.real_point == orig.real_point,
                self@.desk == orig.desk,
                self@.hand == orig.hand,
                self@.cost == orig.cost,
                self@.zone == orig.zone,
                self@.grave == orig.grave + cards@.subrange(0, i as int),
            decreases cards@.len() - i,
        {
            self.grave.push(cards[i]);
            proof {
                assert(orig.grave + cards@.subrange(0, i as int) + seq![cards@[i as int]] =~= orig.grave
                    + cards@.subrange(0, i + 1));
            }
            i = i + 1;
        }
        proof {
            assert(cards@.subrange(0, cards@.len() as int) =~= cards@);
            assert(self@ =~= (GameStateModel { grave: orig.grave + cards@, ..orig }));
        }
    }
}

/// The match aggregate: both sides, the registry, the phase machine and the
/// pending-effect queue.
#[derive(Debug)]
pub struct Game {
    players: Vec<Player>,
    current_phase: GamePhase,
    current_player: PlayerId,
    cards: Vec<Card>,
    game_states: Vec<GameState>,
    id_generator: IdGenerator,
    do_effect_stacks: VecDeque<DoEffect>,
    game_diff_list: Vec<GameDiff>,
}

pub open spec fn states_model(s: Seq<GameState>) -> Seq<GameStateModel> {
    Seq::new(s.len(), |i: int| s[i]@)
}

pub open spec fn players_model(s: Seq<Player>) -> Seq<crate::player::PlayerModel> {
    Seq::new(s.len(), |i: int| s[i]@)
}

impl View for Game {
    type V = GameModel;

    closed spec fn view(&self) -> GameModel {
        GameModel {
            players: players_model(self.players@),
            current_phase: self.current_phase,
            current_player: self.current_player,
            cards: cards_model(self.cards@),
            game_states: states_model(self.game_states@),
            next_entry: self.id_generator.0,
            effects: effs_model(self.do_effect_stacks@),
            diffs: self.game_diff_list@,
        }
    }
}

/// The phase transition: the successor phase; leaving `End` also hands the
/// turn to the next player. A diff is appended for the record.
pub open spec fn spec_next_phase(s: GameModel) -> GameModel {
    let to = spec_phase_next(s.current_phase);
    GameModel {
        current_phase: to,
        current_player: if s.current_phase is End {
            spec_next_player(s)
        } else {
            s.current_player
        },
        diffs: s.diffs.push(
            GameDiff::PhaseChanged { player: s.current_player, from: s.current_phase, to },
        ),
        ..s
    }
}

impl Game {
    /// The shape every reachable match keeps; see `wf_model`.
    pub open spec fn wf(&self) -> bool {
        wf_model(self@)
    }

    /// The model of the turn owner's side.
    pub open spec fn cur_state(&self) -> GameStateModel {
        self@.game_states[self@.current_player as int]
    }

    pub fn current_player(&self) -> (r: PlayerId)
        ensures
            r == self@.current_player,
    {
        self.current_player
    }

    pub fn current_phase(&self) -> (r: GamePhase)
        ensures
            r == self@.current_phase,
    {
        self.current_phase
    }

    pub fn current_grave(&self) -> (r: Vec<EntryId>)
        requires
            self.wf(),
        ensures
            r@ == self.cur_state().grave,
    {
        clone_ids(&self.game_states[self.current_player].grave)
    }

    pub fn current_desk_len(&self) -> (r: usize)
        requires
            self.wf(),
        ensures
            r == self.cur_state().desk.len(),
    {
        self.game_states[self.current_player].desk.len()
    }

    pub fn current_hand(&self) -> (r: Vec<EntryId>)
        requires
            self.wf(),
        ensures
            r@ == self.cur_state().hand,
    {
        clone_ids(&self.game_states[self.current_player].hand)
    }

    pub fn current_cost(&self) -> (r: Vec<EntryId>)
        requires
            self.wf(),
        ensures
            r@ == self.cur_state().cost,
    {
        clone_ids(&self.game_states[self.current_player].cost)
    }

    pub fn current_real_point(&self) -> (r: usize)
        requires
            self.wf(),
        ensures
            r == self.cur_state().real_point,
    {
        self.game_states[self.current_player].real_point
    }

    pub fn current_hp(&self) -> (r: usize)
        requires
            self.wf(),
        ensures
            r == self.cur_state().hp,
    {
        self.game_states[self.current_player].hp
    }

    pub fn current_zone(&self) -> (r: Vec<Zone>)
        requires
            self.wf(),
        ensures
            zones_model(r@) == self.cur_state().zone,
    {
        let zs = &self.game_states[self.current_player].zone;
        let mut r: Vec<Zone> = Vec::new();
        let mut i: usize = 0;
        while i < zs.len()
            invariant
                0 <= i <= zs@.len(),
                r@.len() == i,
                forall|j: int| 0 <= j < i ==> #[trigger] r@[j]@ == zs@[j]@,
            decreases zs@.len() - i,
        {
            r.push(zs[i].clone());
            i = i + 1;
        }
        proof {
            assert(zones_model(r@) =~= zones_model(zs@));
        }
        r
    }

    /// Looks a card instance up by entry id; an unknown id is an explicit
    /// miss, never a crash.
    pub fn get(&self, id: EntryId) -> (r: Option<&Card>)
        ensures
            match r {
                Option::Some(c) => card_idx(self@.cards, id) >= 0 && c@ == self@.cards[card_idx(
                    self@.cards,
                    id,
                )],
                Option::None => card_idx(self@.cards, id) == -1,
            },
    {
        proof {
            lemma_card_idx(self@.cards, id);
        }
        let mut i: usize = 0;
        while i < self.cards.len()
            invariant
                0 <= i <= self.cards@.len(),
                forall|j: int| 0 <= j < i ==> self@.cards[j].entry_id != id,
            decreases self.cards@.len() - i,
        {
            if self.cards[i].entry_id == id {
                proof {
                    lemma_card_idx(self@.cards, id);
                    let idx = card_idx(self@.cards, id);
                    assert(self@.cards[i as int].entry_id == id);
                    assert(idx >= 0) by {
                        if idx == -1 {
                            assert(self@.cards[i as int].entry_id != id);
                        }
                    }
                    assert(idx >= i as int) by {
                        if idx < i as int {
                            assert(self@.cards[idx].entry_id == id);
                        }
                    }
                    assert(idx <= i as int) by {
                        if idx > i as int {
                            assert(self@.cards[i as int].entry_id != id);
                        }
                    }
                }
                return Some(&self.cards[i]);
            }
            i = i + 1;
        }
        None
    }

    /// The index of a card instance in the registry.
    fn card_position(&self, id: EntryId) -> (r: Option<usize>)
        ensures
            match r {
                Option::Some(j) => j as int == card_idx(self@.cards, id),
                Option::None => card_idx(self@.cards, id) == -1,
            },
    {
        proof {
            lemma_card_idx(self@.cards, id);
        }
        let mut i: usize = 0;
        while i < self.cards.len()
            invariant
                0 <= i <= self.cards@.len(),
                forall|j: int| 0 <= j < i ==> self@.cards[j].entry_id != id,
            decreases self.cards@.len() - i,
        {
            if self.cards[i].entry_id == id {
                proof {
                    lemma_card_idx(self@.cards, id);
                    let idx = card_idx(self@.cards, id);
                    assert(self@.cards[i as int].entry_id == id);
                    assert(idx >= 0) by {
                        if idx == -1 {
                            assert(self@.cards[i as int].entry_id != id);
                        }
                    }
                    assert(idx >= i as int) by {
                        if idx < i as int {
                            assert(self@.cards[idx].entry_id == id);
                        }
                    }
                    assert(idx <= i as int) by {
                        if idx > i as int {
                            assert(self@.cards[i as int].entry_id != id);
                        }
                    }
                }
                return Some(i);
            }
            i = i + 1;
        }
        None
    }

    /// Whether the named card can be paid for right now: hand cards usable up
    /// to the free cost-area slots, plus banked points, against its cost. An
    /// unknown id is an explicit miss.
    pub fn check_cost(&self, card_id: EntryId) -> (r: Option<bool>)
        requires
            self.wf(),
        ensures
            match r {
                Option::Some(b) => card_idx(self@.cards, card_id) >= 0 && b == spec_can_afford(
                    self.cur_state().hand.len() as int,
                    self.cur_state().cost.len() as int,
                    self.cur_state().real_point as int,
                    self@.cards[card_idx(self@.cards, card_id)].info.cost as int,
                ),
                Option::None => card_idx(self@.cards, card_id) == -1,
            },
    {
        let card_cost = match self.get(card_id) {
            Option::Some(c) => c.card_info.cost,
            Option::None => {
                return None;
            },
        };
        let gs = &self.game_states[self.current_player];
        let hand_len = gs.hand.len();
        let cost_len = gs.cost.len();
        let remaining: usize = if cost_len >= 6 {
            0
        } else {
            6 - cost_len
        };
        let avail = if hand_len < remaining {
            hand_len
        } else {
            remaining
        };
        let pool = gs.real_point;
        if pool >= card_cost {
            Some(true)
        } else {
            Some(avail >= card_cost - pool)
        }
    }

    fn next_player_id(&self) -> (r: PlayerId)
        requires
            self.wf(),
        ensures
            r == spec_next_player(self@),
    {
        proof {
            assert(self.current_player < self.players.len());
        }
        (self.current_player + 1) % self.players.len()
    }

    /// Advances the phase cycle; leaving `End` hands the turn to the next
    /// player. The transition is total: every phase always advances.
    pub fn next_phase(&mut self)
        requires
            old(self).wf(),
        ensures
            final(self)@ == spec_next_phase(old(self)@),
            final(self).wf(),
    {
        let ghost orig = self@;
        let from = self.current_phase;
        let to = GamePhase::next(&self.current_phase);
        let player = self.current_player;
        if self.current_phase == GamePhase::End {
            self.current_player = self.next_player_id();
        }
        self.current_phase = to;
        self.game_diff_list.push(GameDiff::PhaseChanged { player, from, to });
        proof {
            assert(self@ =~= spec_next_phase(orig));
        }
    }
}

/// How many pending effects one drain may resolve before it errors out; the
/// window dispatcher can feed the queue from within resolution, so a runaway
/// chain is cut off rather than looped on forever.
pub const EFFECT_BUDGET: usize = 100000;

/// Effect resolution gave up rather than crash or loop forever.
#[derive(Clone, Copy, Debug, PartialEq, Eq, Structural)]
pub enum ProcessError {
    /// More pending effects than the resolution budget allows.
    BudgetExceeded,
}

impl Game {

    /// The turn owner draws via the deck-tail rule.
    fn state_draw(&mut self, p: usize, num: usize)
        requires
            old(self).wf(),
            p < old(self)@.game_states.len(),
        ensures
            final(self).wf(),
            final(self)@ == (GameModel {
                game_states: old(self)@.game_states.update(
                    p as int,
                    apply_draw_state(old(self)@.game_states[p as int], num),
                ),
                ..old(self)@
            }),
    {
        let ghost s0 = self@;
        let mut gs = self.game_states.remove(p);
        proof {
            assert(gs@ == s0.game_states[p as int]);
        }
        gs.draw(num);
        let ghost gs2 = gs@;
        self.game_states.insert(p, gs);
        proof {
            assert(states_model(self.game_states@) =~= s0.game_states.update(p as int, gs2));
            assert(self@ =~= (GameModel {
                game_states: s0.game_states.update(p as int, gs2),
                ..s0
            }));
            lemma_wf_update_state(s0, p as int, gs2);
        }
    }

    /// Damage against side `p`, absorbed by its point pool near zero hp.
    fn state_damage(&mut self, p: usize, num: usize)
        requires
            old(self).wf(),
            p < old(self)@.game_states.len(),
        ensures
            final(self).wf(),
            final(self)@ == (GameModel {
                game_states: old(self)@.game_states.update(
                    p as int,
                    apply_damage_state(old(self)@.game_states[p as int], num),
                ),
                ..old(self)@
            }),
    {
        let ghost s0 = self@;
        let mut gs = self.game_states.remove(p);
        proof {
            assert(gs@ == s0.game_states[p as int]);
        }
        gs.apply_damage(num);
        let ghost gs2 = gs@;
        self.game_states.insert(p, gs);
        proof {
            assert(states_model(self.game_states@) =~= s0.game_states.update(p as int, gs2));
            assert(self@ =~= (GameModel {
                game_states: s0.game_states.update(p as int, gs2),
                ..s0
            }));
            lemma_wf_update_state(s0, p as int, gs2);
        }
    }

    /// Adds banked points on side `p`.
    fn state_add_point(&mut self, p: usize, num: usize)
        requires
            old(self).wf(),
            p < old(self)@.game_states.len(),
        ensures
            final(self).wf(),
            final(self)@ == (GameModel {
                game_states: old(self)@.game_states.update(
                    p as int,
                    apply_add_point_state(old(self)@.game_states[p as int], num),
                ),
                ..old(self)@
            }),
    {
        let ghost s0 = self@;
        let mut gs = self.game_states.remove(p);
        proof {
            assert(gs@ == s0.game_states[p as int]);
        }
        gs.apply_add_point(num);
        let ghost gs2 = gs@;
        self.game_states.insert(p, gs);
        proof {
            assert(states_model(self.game_states@) =~= s0.game_states.update(p as int, gs2));
            assert(self@ =~= (GameModel {
                game_states: s0.game_states.update(p as int, gs2),
                ..s0
            }));
            lemma_wf_update_state(s0, p as int, gs2);
        }
    }

    /// Spends banked points on side `p`; a short pool is left untouched.
    fn state_use_point(&mut self, p: usize, num: usize)
        requires
            old(self).wf(),
            p < old(self)@.game_states.len(),
        ensures
            final(self).wf(),
            final(self)@ == (GameModel {
                game_states: old(self)@.game_states.update(
                    p as int,
                    apply_use_point_state(old(self)@.game_states[p as int], num),
                ),
                ..old(self)@
            }),
    {
        let ghost s0 = self@;
        let mut gs = self.game_states.remove(p);
        proof {
            assert(gs@ == s0.game_states[p as int]);
        }
        gs.apply_use_point(num);
        let ghost gs2 = gs@;
        self.game_states.insert(p, gs);
        proof {
            assert(states_model(self.game_states@) =~= s0.game_states.update(p as int, gs2));
            assert(self@ =~= (GameModel {
                game_states: s0.game_states.update(p as int, gs2),
                ..s0
            }));
            lemma_wf_update_state(s0, p as int, gs2);
        }
    }

    /// Empties the turn owner's slot carrying the id, handing its cards back.
    fn remove_my_zone_cards(&mut self, id: EntryId) -> (r: Vec<EntryId>)
        requires
            old(self).wf(),
        ensures
            final(self).wf(),
            ({
                let gs = old(self)@.game_states[old(self)@.current_player as int];
                let j = zone_idx(gs.zone, id);
                if j < 0 {
                    final(self)@ == old(self)@ && r@ == Seq::<EntryId>::empty()
                } else {
                    final(self)@ == (GameModel {
                        game_states: old(self)@.game_states.update(
                            old(self)@.current_player as int,
                            GameStateModel {
                                zone: gs.zone.update(
                                    j,
                                    ZoneModel { cards: Seq::empty(), ..gs.zone[j] },
                                ),
                                ..gs
                            },
                        ),
                        ..old(self)@
                    }) && r@ == gs.zone[j].cards
                }
            }),
    {
        let p = self.current_player;
        self.remove_zone_cards_at(p, id)
    }

    /// Empties the opponent's slot carrying the id, handing its cards back.
    fn remove_other_zone_cards(&mut self, id: EntryId) -> (r: Vec<EntryId>)
        requires
            old(self).wf(),
        ensures
            final(self).wf(),
            ({
                let q = spec_next_player(old(self)@) as int;
                let gs = old(self)@.game_states[q];
                let j = zone_idx(gs.zone, id);
                if j < 0 {
                    final(self)@ == old(self)@ && r@ == Seq::<EntryId>::empty()
                } else {
                    final(self)@ == (GameModel {
                        game_states: old(self)@.game_states.update(
                            q,
                            GameStateModel {
                                zone: gs.zone.update(
                                    j,
                                    ZoneModel { cards: Seq::empty(), ..gs.zone[j] },
                                ),
                                ..gs
                            },
                        ),
                        ..old(self)@
                    }) && r@ == gs.zone[j].cards
                }
            }),
    {
        let q = self.next_player_id();
        proof {
            assert(spec_next_player(self@) < self@.players.len());
        }
        self.remove_zone_cards_at(q, id)
    }

    fn remove_zone_cards_at(&mut self, p: usize, id: EntryId) -> (r: Vec<EntryId>)
        requires
            old(self).wf(),
            p < old(self)@.game_states.len(),
        ensures
            final(self).wf(),
            ({
                let gs = old(self)@.game_states[p as int];
                let j = zone_idx(gs.zone, id);
                if j < 0 {
                    final(self)@ == old(self)@ && r@ == Seq::<EntryId>::empty()
                } else {
                    final(self)@ == (GameModel {
                        game_states: old(self)@.game_states.update(
                            p as int,
                            GameStateModel {
                                zone: gs.zone.update(
                                    j,
                                    ZoneModel { cards: Seq::empty(), ..gs.zone[j] },
                                ),
                                ..gs
                            },
                        ),
                        ..old(self)@
                    }) && r@ == gs.zone[j].cards
                }
            }),
    {
        let ghost s0 = self@;
        let mut gs = self.game_states.remove(p);
        proof {
            assert(gs@ == s0.game_states[p as int]);
        }
        let r = gs.take_zone_cards(id);
        let ghost gs2 = gs@;
        self.game_states.insert(p, gs);
        proof {
            assert(states_model(self.game_states@) =~= s0.game_states.update(p as int, gs2));
            assert(self@ =~= (GameModel {
                game_states: s0.game_states.update(p as int, gs2),
                ..s0
            }));
            let gs0 = s0.game_states[p as int];
            let j = zone_idx(gs0.zone, id);
            crate::model::lemma_zone_idx(gs0.zone, id);
            if j < 0 {
                assert(gs2 == gs0);
                assert(s0.game_states.update(p as int, gs2) =~= s0.game_states);
                assert(self@ =~= s0);
            } else {
                assert forall|i: int| 0 <= i < gs2.zone.len() implies gs2.zone[i].id
                    == gs0.zone[i].id by {}
            }
            lemma_wf_update_state(s0, p as int, gs2);
        }
        r
    }

    /// Sends destroyed cards to a side's graveyard: the turn owner's on a
    /// self target, the opponent's on anything else.
    pub fn destroy_zone(&mut self, cards: Vec<EntryId>, targeting: Targeting)
        requires
            old(self).wf(),
        ensures
            final(self).wf(),
            ({
                let p = if targeting is TargetPlayerSelf {
                    old(self)@.current_player as int
                } else {
                    spec_next_player(old(self)@) as int
                };
                final(self)@ == (GameModel {
                    game_states: old(self)@.game_states.update(
                        p,
                        GameStateModel {
                            grave: old(self)@.game_states[p].grave + cards@,
                            ..old(self)@.game_states[p]
                        },
                    ),
                    ..old(self)@
                })
            }),
    {
        let p = if let Targeting::TargetPlayerSelf = targeting {
            self.current_player
        } else {
            self.next_player_id()
        };
        proof {
            assert(p < self@.game_states.len());
        }
        let ghost s0 = self@;
        let mut gs = self.game_states.remove(p);
        proof {
            assert(gs@ == s0.game_states[p as int]);
        }
        gs.extend_grave(&cards);
        let ghost gs2 = gs@;
        self.game_states.insert(p, gs);
        proof {
            assert(states_model(self.game_states@) =~= s0.game_states.update(p as int, gs2));
            assert(self@ =~= (GameModel {
                game_states: s0.game_states.update(p as int, gs2),
                ..s0
            }));
            lemma_wf_update_state(s0, p as int, gs2);
        }
    }

    /// Adjusts the first registry entry carrying the id; a missing id changes
    /// nothing.
    fn counter_up_card(&mut self, card_id: EntryId, n: usize)
        requires
            old(self).wf(),
        ensures
            final(self).wf(),
            final(self)@ == (GameModel {
                cards: counter_up(old(self)@.cards, card_id, n),
                ..old(self)@
            }),
    {
        let ghost s0 = self@;
        match self.card_position(card_id) {
            Option::Some(j) => {
                proof {
                    lemma_card_idx(s0.cards, card_id);
                }
                let mut c = self.cards.remove(j);
                proof {
                    assert(c@ == s0.cards[j as int]);
                }
                if c.attack_counter <= usize::MAX - n {
                    c.attack_counter = c.attack_counter + n;
                }
                let ghost c2 = c@;
                self.cards.insert(j, c);
                proof {
                    assert(cards_model(self.cards@) =~= s0.cards.update(j as int, c2));
                    assert(s0.cards.update(j as int, c2) =~= counter_up(s0.cards, card_id, n));
                    assert(self@ =~= (GameModel { cards: counter_up(s0.cards, card_id, n), ..s0 }));
                    lemma_wf_update_cards(s0, counter_up(s0.cards, card_id, n));
                }
            },
            Option::None => {
                proof {
                    assert(counter_up(s0.cards, card_id, n) == s0.cards);
                    assert(self@ =~= (GameModel { cards: counter_up(s0.cards, card_id, n), ..s0 }));
                }
            },
        }
    }

    /// Lowers the counter, floored at zero; a missing id changes nothing.
    fn counter_down_card(&mut self, card_id: EntryId, n: usize)
        requires
            old(self).wf(),
        ensures
            final(self).wf(),
            final(self)@ == (GameModel {
                cards: counter_down(old(self)@.cards, card_id, n),
                ..old(self)@
            }),
    {
        let ghost s0 = self@;
        match self.card_position(card_id) {
            Option::Some(j) => {
                proof {
                    lemma_card_idx(s0.cards, card_id);
                }
                let mut c = self.cards.remove(j);
                proof {
                    assert(c@ == s0.cards[j as int]);
                }
                if c.attack_counter >= n {
                    c.attack_counter = c.attack_counter - n;
                } else {
                    c.attack_counter = 0;
                }
                let ghost c2 = c@;
                self.cards.insert(j, c);
                proof {
                    assert(cards_model(self.cards@) =~= s0.cards.update(j as int, c2));
                    assert(s0.cards.update(j as int, c2) =~= counter_down(s0.cards, card_id, n));
                    assert(self@ =~= (GameModel { cards: counter_down(s0.cards, card_id, n), ..s0 }));
                    lemma_wf_update_cards(s0, counter_down(s0.cards, card_id, n));
                }
            },
            Option::None => {
                proof {
                    assert(counter_down(s0.cards, card_id, n) == s0.cards);
                    assert(self@ =~= (GameModel { cards: counter_down(s0.cards, card_id, n), ..s0 }));
                }
            },
        }
    }

    /// Pushes the placed card's on-set reactions onto the queue front, in
    /// declaration order, so they resolve first; an unknown card dispatches
    /// nothing.
    fn dispatch_set_effects(&mut self, card_id: EntryId)
        requires
            old(self).wf(),
        ensures
            final(self).wf(),
            ({
                let j = card_idx(old(self)@.cards, card_id);
                if j >= 0 {
                    final(self)@ == (GameModel {
                        effects: onset_list(old(self)@.cards[j].info.effects).reverse()
                            + old(self)@.effects,
                        ..old(self)@
                    })
                } else {
                    final(self)@ == old(self)@
                }
            }),
    {
        let ghost s0 = self@;
        match self.card_position(card_id) {
            Option::Some(j) => {
                proof {
                    lemma_card_idx(s0.cards, card_id);
                }
                let ghost effs = s0.cards[j as int].info.effects;
                let ghost q0 = s0.effects;
                let num_effects = self.cards[j].card_info.effects.len();
                proof {
                    assert(effs.len() == num_effects);
                    assert(effs.subrange(0, 0) =~= Seq::<crate::effect::EffectModel>::empty());
                    assert(onset_list(effs.subrange(0, 0)).reverse() + q0 =~= q0);
                }
                let mut k: usize = 0;
                while k < num_effects
                    invariant
                        0 <= k <= num_effects,
                        s0 == old(self)@,
                        self.wf(),
                        num_effects == effs.len(),
                        j as int == card_idx(s0.cards, card_id),
                        (j as int) < s0.cards.len(),
                        effs == s0.cards[j as int].info.effects,
                        q0 == s0.effects,
                        self.cards@.len() == s0.cards.len(),
                        forall|m: int| 0 <= m < s0.cards.len() ==> self@.cards[m] == s0.cards[m],
                        self@ == (GameModel {
                            effects: onset_list(effs.subrange(0, k as int)).reverse() + q0,
                            ..s0
                        }),
                    decreases num_effects - k,
                {
                    let ghost pre = effs.subrange(0, k as int);
                    let ghost pre1 = effs.subrange(0, k + 1);
                    proof {
                        assert(pre1.drop_last() =~= pre);
                        assert(pre1.last() == effs[k as int]);
                        assert(self@.cards[j as int] == s0.cards[j as int]);
                    }
                    if self.cards[j].card_info.effects[k].windows_tag == WindowsTag::OnSet {
                        let eff = self.cards[j].card_info.effects[k].do_effect.clone();
                        proof {
                            assert(eff_tree(eff) == effs[k as int].do_effect);
                        }
                        let ghost qpre = self.do_effect_stacks@;
                        self.do_effect_stacks.push_front(eff);
                        proof {
                            assert(effs_model(self.do_effect_stacks@) =~= seq![
                                effs[k as int].do_effect,
                            ] + effs_model(qpre));
                            assert(onset_list(pre1) =~= onset_list(pre).push(
                                effs[k as int].do_effect,
                            ));
                            assert(onset_list(pre1).reverse() + q0 =~= seq![
                                effs[k as int].do_effect,
                            ] + (onset_list(pre).reverse() + q0));
                            assert(self@ =~= (GameModel {
                                effects: onset_list(pre1).reverse() + q0,
                                ..s0
                            }));
                        }
                    } else {
                        proof {
                            assert(onset_list(pre1) =~= onset_list(pre));
                            assert(self@ =~= (GameModel {
                                effects: onset_list(pre1).reverse() + q0,
                                ..s0
                            }));
                        }
                    }
                    k = k + 1;
                }
                proof {
                    assert(effs.subrange(0, effs.len() as int) =~= effs);
                }
            },
            Option::None => {},
        }
    }

    /// Places a card for the turn owner and, if the slot reference resolved,
    /// fires the on-set window.
    fn effect_set(&mut self, card_id: EntryId, zone_id: EntryId)
        requires
            old(self).wf(),
        ensures
            final(self).wf(),
            final(self)@ == apply_action(
                old(self)@,
                Targeting::Nothing,
                Targeting::Nothing,
                Action::SetCard { card_id, zone_id },
            ),
    {
        let ghost s0 = self@;
        let p = self.current_player;
        let mut gs = self.game_states.remove(p);
        proof {
            assert(gs@ == s0.game_states[p as int]);
        }
        let flag = gs.place_card(card_id, zone_id);
        let ghost gs2 = gs@;
        self.game_states.insert(p, gs);
        let ghost s2 = GameModel { game_states: s0.game_states.update(p as int, gs2), ..s0 };
        proof {
            assert(states_model(self.game_states@) =~= s0.game_states.update(p as int, gs2));
            assert(self@ =~= s2);
            lemma_wf_update_state(s0, p as int, gs2);
        }
        if flag {
            self.dispatch_set_effects(card_id);
            proof {
                assert(card_idx(s2.cards, card_id) == card_idx(s0.cards, card_id));
                assert(self@ =~= apply_action(
                    s0,
                    Targeting::Nothing,
                    Targeting::Nothing,
                    Action::SetCard { card_id, zone_id },
                ));
            }
        } else {
            proof {
                assert(self@ =~= apply_action(
                    s0,
                    Targeting::Nothing,
                    Targeting::Nothing,
                    Action::SetCard { card_id, zone_id },
                ));
            }
        }
    }

    /// Resolves one elementary action exactly as the model's semantics say.
    fn apply_one_action(&mut self, source: Targeting, targeting: Targeting, action: Action)
        requires
            old(self).wf(),
        ensures
            final(self).wf(),
            final(self)@ == apply_action(old(self)@, source, targeting, action),
    {
        let ghost s0 = self@;
        match action {
            Action::Nothing => {},
            Action::Draw(num) => {
                match targeting {
                    Targeting::TargetPlayerSelf => {
                        let p = self.current_player;
                        self.state_draw(p, num);
                    },
                    Targeting::TargetPlayerOpponent => {
                        let p = self.next_player_id();
                        proof {
                            assert(p < s0.game_states.len());
                        }
                        self.state_draw(p, num);
                    },
                    _ => {},
                }
            },
            Action::SetCard { card_id, zone_id } => {
                self.effect_set(card_id, zone_id);
                proof {
                    assert(apply_action(s0, source, targeting, action) == apply_action(
                        s0,
                        Targeting::Nothing,
                        Targeting::Nothing,
                        action,
                    ));
                }
            },
            Action::Damage(num) => {
                match targeting {
                    Targeting::TargetPlayerSelf => {
                        let p = self.current_player;
                        self.state_damage(p, num);
                    },
                    Targeting::TargetPlayerOpponent => {
                        let p = self.next_player_id();
                        proof {
                            assert(p < s0.game_states.len());
                        }
                        self.state_damage(p, num);
                    },
                    _ => {},
                }
            },
            Action::AddRealPoint(num) => {
                match targeting {
                    Targeting::TargetPlayerSelf => {
                        let p = self.current_player;
                        self.state_add_point(p, num);
                    },
                    Targeting::TargetPlayerOpponent => {
                        let p = self.next_player_id();
                        proof {
                            assert(p < s0.game_states.len());
                        }
                        self.state_add_point(p, num);
                    },
                    _ => {},
                }
            },
            Action::UseRealPoint(num) => {
                match targeting {
                    Targeting::TargetPlayerSelf => {
                        let p = self.current_player;
                        self.state_use_point(p, num);
                    },
                    Targeting::TargetPlayerOpponent => {
                        let p = self.next_player_id();
                        proof {
                            assert(p < s0.game_states.len());
                        }
                        self.state_use_point(p, num);
                    },
                    _ => {},
                }
            },
            Action::FightDestroy { zone_id } => {
                let cards = self.remove_my_zone_cards(zone_id);
                self.destroy_zone(cards, Targeting::TargetPlayerSelf);
                let ghost s_mid = self@;
                proof {
                    assert(s_mid =~= destroy_side(s0, s0.current_player as int, zone_id));
                    assert(spec_next_player(s_mid) == spec_next_player(s0));
                }
                let cards = self.remove_other_zone_cards(zone_id);
                self.destroy_zone(cards, Targeting::TargetPlayerOpponent);
                proof {
                    assert(self@ =~= destroy_side(s_mid, spec_next_player(s0) as int, zone_id));
                    assert(self@ =~= apply_action(s0, source, targeting, action));
                }
            },
            Action::AttackCounterUp(card_id, num) => {
                self.counter_up_card(card_id, num);
            },
            Action::AttackCountDown(card_id, num) => {
                self.counter_down_card(card_id, num);
            },
        }
    }

    /// Drains the pending-effect queue to quiescence, resolving the front
    /// entry first (last pushed resolves first), within the configured budget.
    /// On success the final state is exactly a run of the model semantics that
    /// ends with an empty queue; the error is reported only when a budget's
    /// worth of steps truly leaves work pending, so a drain that can finish
    /// always does.
    pub fn process_effect(&mut self) -> (r: Result<(), ProcessError>)
        requires
            old(self).wf(),
        ensures
            final(self).wf(),
            match r {
                Result::Ok(()) => quiescent(final(self)@) && exists|n: nat|
                    final(self)@ == run_steps(old(self)@, n),
                Result::Err(_) => final(self)@ == run_steps(old(self)@, EFFECT_BUDGET as nat)
                    && !quiescent(run_steps(old(self)@, EFFECT_BUDGET as nat)),
            },
    {
        let ghost s_init = self@;
        let ghost mut steps: nat = 0;
        let mut iter: usize = 0;
        while iter < EFFECT_BUDGET
            invariant
                0 <= iter <= EFFECT_BUDGET,
                s_init == old(self)@,
                self.wf(),
                steps == iter,
                self@ == run_steps(s_init, steps),
            decreases EFFECT_BUDGET - iter,
        {
            let ghost s_pre = self@;
            let e = match self.do_effect_stacks.pop_front() {
                Option::Some(e) => e,
                Option::None => {
                    proof {
                        assert(self@ == s_pre);
                        assert(quiescent(self@));
                    }
                    return Ok(());
                },
            };
            let ghost s_mid = self@;
            proof {
                assert(s_pre.effects.len() > 0);
                assert(eff_tree(e) == s_pre.effects[0]);
                assert(s_mid =~= (GameModel {
                    effects: s_pre.effects.subrange(1, s_pre.effects.len() as int),
                    ..s_pre
                }));
            }
            match e {
                DoEffect::Nothing => {
                    proof {
                        assert(self@ == step(s_pre));
                    }
                },
                DoEffect::Action { source, targeting, action } => {
                    proof {
                        assert(wf_model(s_mid));
                    }
                    self.apply_one_action(source, targeting, action);
                    proof {
                        assert(self@ == apply_action(s_mid, source, targeting, action));
                        assert(self@ == step(s_pre));
                    }
                },
                DoEffect::AndAction(mut actions) => {
                    let ghost orig_act = actions@;
                    proof {
                        assert(wf_model(s_mid));
                        assert(effs_model(orig_act.subrange(0, 0)) =~= Seq::<EffTree>::empty());
                        assert(s_mid.effects + effs_model(orig_act.subrange(0, 0)) =~= s_mid.effects);
                    }
                    let mut d: usize = 0;
                    let total = actions.len();
                    while d < total
                        invariant
                            0 <= d <= total,
                            total == orig_act.len(),
                            actions@ == orig_act.subrange(d as int, orig_act.len() as int),
                            s_mid.effects + effs_model(orig_act.subrange(0, d as int))
                                == self@.effects,
                            self@ == (GameModel {
                                effects: s_mid.effects + effs_model(
                                    orig_act.subrange(0, d as int),
                                ),
                                ..s_mid
                            }),
                            wf_model(s_mid),
                        decreases total - d,
                    {
                        let a = actions.remove(0);
                        let ghost qpre = self.do_effect_stacks@;
                        self.do_effect_stacks.push_back(a);
                        proof {
                            assert(a == orig_act[d as int]);
                            assert(actions@ =~= orig_act.subrange(d + 1, orig_act.len() as int));
                            assert(effs_model(self.do_effect_stacks@) =~= effs_model(qpre).push(
                                eff_tree(orig_act[d as int]),
                            ));
                            assert(effs_model(orig_act.subrange(0, d + 1)) =~= effs_model(
                                orig_act.subrange(0, d as int),
                            ).push(eff_tree(orig_act[d as int])));
                            assert(s_mid.effects + effs_model(orig_act.subrange(0, d + 1)) =~= (
                            s_mid.effects + effs_model(orig_act.subrange(0, d as int))).push(
                                eff_tree(orig_act[d as int]),
                            ));
                            assert(self@ =~= (GameModel {
                                effects: s_mid.effects + effs_model(orig_act.subrange(0, d + 1)),
                                ..s_mid
                            }));
                        }
                        d = d + 1;
                    }
                    proof {
                        assert(orig_act.subrange(0, orig_act.len() as int) =~= orig_act);
                        lemma_effs_model(orig_act);
                        assert(eff_tree(e) == EffTree::And(eff_tree_seq(orig_act)));
                        assert(self@ =~= (GameModel {
                            effects: s_mid.effects + eff_tree_seq(orig_act),
                            ..s_mid
                        }));
                        assert(wf_model(self@));
                        assert(self@ == step(s_pre));
                    }
                },
                DoEffect::OrAction(actions) => {
                    proof {
                        assert(self@ == step(s_pre));
                    }
                },
            }
            proof {
                lemma_run_steps_succ(s_init, steps);
                steps = steps + 1;
                assert(self@ == run_steps(s_init, steps));
            }
            iter = iter + 1;
        }
        if self.do_effect_stacks.len() == 0 {
            proof {
                assert(quiescent(self@));
            }
            Ok(())
        } else {
            Err(ProcessError::BudgetExceeded)
        }
    }

    /// Announces a game occurrence: reactions declared for it are pushed and
    /// the queue is drained to quiescence. Only the on-set window is wired to
    /// reactions so far.
    pub fn emit_event(&mut self, window_event: WindowEvent) -> (r: Result<(), ProcessError>)
        requires
            old(self).wf(),
        ensures
            final(self).wf(),
            ({
                let staged = spec_dispatch(old(self)@, window_event);
                match r {
                    Result::Ok(()) => quiescent(final(self)@) && exists|n: nat|
                        final(self)@ == run_steps(staged, n),
                    Result::Err(_) => final(self)@ == run_steps(staged, EFFECT_BUDGET as nat)
                        && !quiescent(run_steps(staged, EFFECT_BUDGET as nat)),
                }
            }),
    {
        match window_event {
            WindowEvent::Cost { card } => {},
            WindowEvent::SetCard { card } => {
                self.dispatch_set_effects(card);
            },
            WindowEvent::Attack { source, target } => {},
        }
        self.process_effect()
    }
}

/// What announcing an occurrence pushes onto the queue: the on-set window
/// fires the placed card's tagged reactions; the cost and attack windows are
/// declared but not yet wired to any reaction lookup.
pub open spec fn spec_dispatch(s: GameModel, ev: crate::window_event::WindowEvent) -> GameModel {
    match ev {
        crate::window_event::WindowEvent::SetCard { card } => {
            let j = card_idx(s.cards, card);
            if j >= 0 {
                GameModel { effects: onset_list(s.cards[j].info.effects).reverse() + s.effects, ..s }
            } else {
                s
            }
        },
        _ => s,
    }
}

/// The state after a cost payment: the chosen hand cards move to the cost
/// area and the chosen banked points are spent.
pub open spec fn spec_pay_cost(s: GameModel, hands: Seq<EntryId>, real_point: usize) -> GameModel {
    let p = s.current_player as int;
    let gs = s.game_states[p];
    GameModel {
        game_states: s.game_states.update(
            p,
            GameStateModel {
                hand: retain_not_in(gs.hand, hands),
                cost: gs.cost + hands,
                real_point: (gs.real_point - real_point) as usize,
                ..gs
            },
        ),
        ..s
    }
}

/// The rollback of an interrupted play: a card that is not sitting in the
/// cost area returns to the hand.
pub open spec fn spec_set_rollback(s: GameModel, card: EntryId) -> GameModel {
    let p = s.current_player as int;
    let gs = s.game_states[p];
    if gs.cost.contains(card) {
        s
    } else {
        GameModel {
            game_states: s.game_states.update(p, GameStateModel { hand: gs.hand.push(card), ..gs }),
            ..s
        }
    }
}

/// The state after the played card leaves the hand (every occurrence).
pub open spec fn spec_leave_hand(s: GameModel, card: EntryId) -> GameModel {
    let p = s.current_player as int;
    let gs = s.game_states[p];
    GameModel {
        game_states: s.game_states.update(
            p,
            GameStateModel { hand: remove_all(gs.hand, card), ..gs },
        ),
        ..s
    }
}

/// Whether this front-row slot may attack this turn: its first card has
/// attacks left. A slot whose first card is unknown to the registry cannot.
pub open spec fn spec_zone_can_attack(s: GameModel, z: ZoneModel) -> bool {
    &&& z.front
    &&& z.cards.len() > 0
    &&& {
        let j = card_idx(s.cards, z.cards[0]);
        j >= 0 && s.cards[j].attack_counter < s.cards[j].attack_max
    }
}

/// The slots of a board that may attack this turn, in board order.
pub open spec fn spec_attack_zones(s: GameModel, zones: Seq<ZoneModel>) -> Seq<ZoneModel>
    decreases zones.len(),
{
    if zones.len() <= 0 {
        Seq::empty()
    } else {
        spec_attack_zones(s, zones.drop_last()) + (if spec_zone_can_attack(s, zones.last()) {
            seq![zones.last()]
        } else {
            Seq::<ZoneModel>::empty()
        })
    }
}

/// The slots of a board that may be attacked: occupied front-row slots.
pub open spec fn spec_attacked_zones(zones: Seq<ZoneModel>) -> Seq<ZoneModel>
    decreases zones.len(),
{
    if zones.len() <= 0 {
        Seq::empty()
    } else {
        spec_attacked_zones(zones.drop_last()) + (if zones.last().front && zones.last().cards.len()
            > 0 {
            seq![zones.last()]
        } else {
            Seq::<ZoneModel>::empty()
        })
    }
}

impl Game {
    /// Pays a cost for the turn owner: the chosen hand cards move to the cost
    /// area and the chosen points are spent. The engine does not check that
    /// the payment matches the card's printed cost; it trusts the response.
    pub fn cost(&mut self, hands: Vec<EntryId>, real_point: usize)
        requires
            old(self).wf(),
            real_point <= old(self)@.game_states[old(self)@.current_player as int].real_point,
        ensures
            final(self).wf(),
            final(self)@ == spec_pay_cost(old(self)@, hands@, real_point),
    {
        let ghost s0 = self@;
        let p = self.current_player;
        let mut gs = self.game_states.remove(p);
        proof {
            assert(gs@ == s0.game_states[p as int]);
        }
        gs.pay_cost(&hands, real_point);
        let ghost gs2 = gs@;
        self.game_states.insert(p, gs);
        proof {
            assert(states_model(self.game_states@) =~= s0.game_states.update(p as int, gs2));
            assert(self@ =~= spec_pay_cost(s0, hands@, real_point));
            lemma_wf_update_state(s0, p as int, gs2);
        }
    }

    /// Returns an interrupted play to the hand, unless the card already sits
    /// in the cost area.
    pub fn set_rollback(&mut self, card: EntryId)
        requires
            old(self).wf(),
        ensures
            final(self).wf(),
            final(self)@ == spec_set_rollback(old(self)@, card),
    {
        let ghost s0 = self@;
        let p = self.current_player;
        if !vec_contains(&self.game_states[p].cost, card) {
            let mut gs = self.game_states.remove(p);
            proof {
                assert(gs@ == s0.game_states[p as int]);
            }
            gs.hand.push(card);
            let ghost gs2 = gs@;
            self.game_states.insert(p, gs);
            proof {
                assert(gs2 =~= (GameStateModel {
                    hand: s0.game_states[p as int].hand.push(card),
                    ..s0.game_states[p as int]
                }));
                assert(states_model(self.game_states@) =~= s0.game_states.update(p as int, gs2));
                assert(self@ =~= spec_set_rollback(s0, card));
                lemma_wf_update_state(s0, p as int, gs2);
            }
        } else {
            proof {
                assert(self@ =~= spec_set_rollback(s0, card));
            }
        }
    }

    /// Takes the played card out of the hand, every occurrence of it.
    fn leave_hand(&mut self, card: EntryId)
        requires
            old(self).wf(),
        ensures
            final(self).wf(),
            final(self)@ == spec_leave_hand(old(self)@, card),
    {
        let ghost s0 = self@;
        let p = self.current_player;
        let mut gs = self.game_states.remove(p);
        proof {
            assert(gs@ == s0.game_states[p as int]);
        }
        let ghost orig = gs@;
        let mut new_hand: Vec<EntryId> = Vec::new();
        let mut i: usize = 0;
        proof {
            assert(orig.hand.subrange(0, 0) =~= Seq::<EntryId>::empty());
            assert(new_hand@ =~= remove_all(orig.hand.subrange(0, 0), card));
        }
        while i < gs.hand.len()
            invariant
                0 <= i <= gs.hand@.len(),
                gs@ == orig,
                new_hand@ == remove_all(orig.hand.subrange(0, i as int), card),
            decreases gs.hand@.len() - i,
        {
            let ghost pre = orig.hand.subrange(0, i as int);
            let ghost pre1 = orig.hand.subrange(0, i + 1);
            proof {
                assert(pre1.drop_last() =~= pre);
                assert(pre1.last() == orig.hand[i as int]);
            }
            if gs.hand[i] != card {
                new_hand.push(gs.hand[i]);
                proof {
                    assert(new_hand@ =~= remove_all(pre, card) + seq![orig.hand[i as int]]);
                }
            }
            i = i + 1;
        }
        proof {
            assert(orig.hand.subrange(0, orig.hand.len() as int) =~= orig.hand);
        }
        gs.hand = new_hand;
        let ghost gs2 = gs@;
        self.game_states.insert(p, gs);
        proof {
            assert(gs2 =~= (GameStateModel {
                hand: remove_all(s0.game_states[p as int].hand, card),
                ..s0.game_states[p as int]
            }));
            assert(states_model(self.game_states@) =~= s0.game_states.update(p as int, gs2));
            assert(self@ =~= spec_leave_hand(s0, card));
            lemma_wf_update_state(s0, p as int, gs2);
        }
    }

    /// Queues the placement of a played card into the chosen slot.
    fn push_set_effect(&mut self, card_id: EntryId, zone_id: EntryId)
        ensures
            final(self)@ == (GameModel {
                effects: seq![
                    EffTree::Action {
                        source: Targeting::TargetPlayerSelf,
                        targeting: Targeting::Nothing,
                        action: Action::SetCard { card_id, zone_id },
                    },
                ] + old(self)@.effects,
                ..old(self)@
            }),
    {
        let ghost s0 = self@;
        let ghost qpre = self.do_effect_stacks@;
        self.do_effect_stacks.push_front(
            DoEffect::Action {
                source: Targeting::TargetPlayerSelf,
                targeting: Targeting::Nothing,
                action: Action::SetCard { card_id, zone_id },
            },
        );
        proof {
            assert(effs_model(self.do_effect_stacks@) =~= seq![
                EffTree::Action {
                    source: Targeting::TargetPlayerSelf,
                    targeting: Targeting::Nothing,
                    action: Action::SetCard { card_id, zone_id },
                },
            ] + effs_model(qpre));
            assert(self@ =~= (GameModel {
                effects: seq![
                    EffTree::Action {
                        source: Targeting::TargetPlayerSelf,
                        targeting: Targeting::Nothing,
                        action: Action::SetCard { card_id, zone_id },
                    },
                ] + s0.effects,
                ..s0
            }));
        }
    }

    /// Whether this slot may attack this turn: a front-row slot whose first
    /// card has attacks left.
    pub fn zone_can_attack(&self, zone: &Zone) -> (r: bool)
        ensures
            r == spec_zone_can_attack(self@, zone@),
    {
        match zone {
            Zone::FrontEnd { id, cards } => {
                if cards.len() > 0 {
                    match self.get(cards[0]) {
                        Option::Some(card) => card.attack_counter < card.attack_max,
                        Option::None => false,
                    }
                } else {
                    false
                }
            },
            Zone::BackEnd { .. } => false,
        }
    }

    /// The turn owner's slots that may attack this turn.
    pub fn get_attack_zones(&self) -> (r: Vec<Zone>)
        requires
            self.wf(),
        ensures
            zones_model(r@) == spec_attack_zones(self@, self.cur_state().zone),
    {
        let ghost zones = self.cur_state().zone;
        let p = self.current_player;
        let mut r: Vec<Zone> = Vec::new();
        let mut i: usize = 0;
        proof {
            assert(zones.subrange(0, 0) =~= Seq::<ZoneModel>::empty());
            assert(zones_model(r@) =~= spec_attack_zones(self@, zones.subrange(0, 0)));
        }
        while i < self.game_states[p].zone.len()
            invariant
                self.wf(),
                p == self@.current_player,
                zones == self.cur_state().zone,
                0 <= i <= zones.len(),
                zones_model(r@) == spec_attack_zones(self@, zones.subrange(0, i as int)),
            decreases zones.len() - i,
        {
            let ghost pre = zones.subrange(0, i as int);
            let ghost pre1 = zones.subrange(0, i + 1);
            proof {
                assert(pre1.drop_last() =~= pre);
                assert(pre1.last() == zones[i as int]);
            }
            if self.zone_can_attack(&self.game_states[p].zone[i]) {
                r.push(self.game_states[p].zone[i].clone());
                proof {
                    assert(zones_model(r@) =~= spec_attack_zones(self@, pre) + seq![
                        zones[i as int],
                    ]);
                }
            }
            i = i + 1;
        }
        proof {
            assert(zones.subrange(0, zones.len() as int) =~= zones);
        }
        r
    }

    /// The opponent's slots that may be attacked: occupied front-row slots.
    pub fn get_attacked_zones(&self) -> (r: Vec<Zone>)
        requires
            self.wf(),
        ensures
            zones_model(r@) == spec_attacked_zones(
                self@.game_states[spec_next_player(self@) as int].zone,
            ),
    {
        let q = self.next_player_id();
        proof {
            assert(q < self@.game_states.len());
        }
        let ghost zones = self@.game_states[q as int].zone;
        let mut r: Vec<Zone> = Vec::new();
        let mut i: usize = 0;
        proof {
            assert(zones.subrange(0, 0) =~= Seq::<ZoneModel>::empty());
            assert(zones_model(r@) =~= spec_attacked_zones(zones.subrange(0, 0)));
        }
        while i < self.game_states[q].zone.len()
            invariant
                self.wf(),
                q < self@.game_states.len(),
                zones == self@.game_states[q as int].zone,
                0 <= i <= zones.len(),
                zones_model(r@) == spec_attacked_zones(zones.subrange(0, i as int)),
            decreases zones.len() - i,
        {
            let ghost pre = zones.subrange(0, i as int);
            let ghost pre1 = zones.subrange(0, i + 1);
            proof {
                assert(pre1.drop_last() =~= pre);
                assert(pre1.last() == zones[i as int]);
            }
            let take = match &self.game_states[q].zone[i] {
                Zone::FrontEnd { id, cards } => cards.len() > 0,
                Zone::BackEnd { .. } => false,
            };
            if take {
                r.push(self.game_states[q].zone[i].clone());
                proof {
                    assert(zones_model(r@) =~= spec_attacked_zones(pre) + seq![zones[i as int]]);
                }
            }
            i = i + 1;
        }
        proof {
            assert(zones.subrange(0, zones.len() as int) =~= zones);
        }
        r
    }

    /// Resets the per-turn attack counter of one card instance.
    fn reset_counter_card(&mut self, card_id: EntryId)
        requires
            old(self).wf(),
        ensures
            final(self).wf(),
            final(self)@ == (GameModel {
                cards: reset_counter(old(self)@.cards, card_id),
                ..old(self)@
            }),
    {
        let ghost s0 = self@;
        match self.card_position(card_id) {
            Option::Some(j) => {
                proof {
                    lemma_card_idx(s0.cards, card_id);
                }
                let mut c = self.cards.remove(j);
                proof {
                    assert(c@ == s0.cards[j as int]);
                }
                c.attack_counter = 0;
                let ghost c2 = c@;
                self.cards.insert(j, c);
                proof {
                    assert(cards_model(self.cards@) =~= s0.cards.update(j as int, c2));
                    assert(s0.cards.update(j as int, c2) =~= reset_counter(s0.cards, card_id));
                    assert(self@ =~= (GameModel { cards: reset_counter(s0.cards, card_id), ..s0 }));
                    lemma_wf_update_cards(s0, reset_counter(s0.cards, card_id));
                }
            },
            Option::None => {
                proof {
                    assert(reset_counter(s0.cards, card_id) == s0.cards);
                    assert(self@ =~= (GameModel { cards: reset_counter(s0.cards, card_id), ..s0 }));
                }
            },
        }
    }

    /// The turn-start refresh: every card in the turn owner's front-row slots
    /// gets its per-turn attack counter reset.
    fn flash_cards(&mut self)
        requires
            old(self).wf(),
        ensures
            final(self).wf(),
            final(self)@ == (GameModel {
                cards: flash_zones(
                    old(self)@.cards,
                    old(self)@.game_states[old(self)@.current_player as int].zone,
                ),
                ..old(self)@
            }),
    {
        let ghost s0 = self@;
        let ghost zones = s0.game_states[s0.current_player as int].zone;
        let p = self.current_player;
        let nz = self.game_states[p].zone.len();
        proof {
            assert(zones.subrange(0, 0) =~= Seq::<ZoneModel>::empty());
            assert(self@ =~= (GameModel {
                cards: flash_zones(s0.cards, zones.subrange(0, 0)),
                ..s0
            }));
        }
        let mut zi: usize = 0;
        while zi < nz
            invariant
                0 <= zi <= zones.len(),
                self.wf(),
                nz == zones.len(),
                p == s0.current_player,
                p < self@.game_states.len(),
                zones == self@.game_states[p as int].zone,
                self.game_states@.len() == self@.game_states.len(),
                self@ == (GameModel {
                    cards: flash_zones(s0.cards, zones.subrange(0, zi as int)),
                    ..s0
                }),
            decreases zones.len() - zi,
        {
            let ghost zpre = zones.subrange(0, zi as int);
            let ghost zpre1 = zones.subrange(0, zi + 1);
            proof {
                assert(zpre1.drop_last() =~= zpre);
                assert(zpre1.last() == zones[zi as int]);
            }
            let is_front = match &self.game_states[p].zone[zi] {
                Zone::FrontEnd { .. } => true,
                Zone::BackEnd { .. } => false,
            };
            if is_front {
                let ghost base = flash_zones(s0.cards, zpre);
                let ghost ids = zones[zi as int].cards;
                let ncards = match &self.game_states[p].zone[zi] {
                    Zone::FrontEnd { id, cards } => cards.len(),
                    Zone::BackEnd { id, cards } => cards.len(),
                };
                proof {
                    assert(ids.subrange(0, 0) =~= Seq::<EntryId>::empty());
                    assert(self@.cards == reset_counters_list(base, ids.subrange(0, 0)));
                }
                let mut ci: usize = 0;
                while ci < ncards
                    invariant
                        0 <= ci <= ids.len(),
                        self.wf(),
                        ncards == ids.len(),
                        p == s0.current_player,
                        p < self@.game_states.len(),
                        zones == self@.game_states[p as int].zone,
                        self.game_states@.len() == self@.game_states.len(),
                        0 <= (zi as int) < zones.len(),
                        ids == zones[zi as int].cards,
                        self@ == (GameModel {
                            cards: reset_counters_list(base, ids.subrange(0, ci as int)),
                            ..s0
                        }),
                    decreases ids.len() - ci,
                {
                    let ghost cpre = ids.subrange(0, ci as int);
                    let ghost cpre1 = ids.subrange(0, ci + 1);
                    proof {
                        assert(cpre1.drop_last() =~= cpre);
                        assert(cpre1.last() == ids[ci as int]);
                    }
                    let entry_id = match &self.game_states[p].zone[zi] {
                        Zone::FrontEnd { id, cards } => cards[ci],
                        Zone::BackEnd { id, cards } => cards[ci],
                    };
                    self.reset_counter_card(entry_id);
                    proof {
                        assert(self@ =~= (GameModel {
                            cards: reset_counters_list(base, cpre1),
                            ..s0
                        }));
                    }
                    ci = ci + 1;
                }
                proof {
                    assert(ids.subrange(0, ids.len() as int) =~= ids);
                    assert(flash_zones(s0.cards, zpre1) == reset_counters_list(base, ids));
                    assert(self@ =~= (GameModel {
                        cards: flash_zones(s0.cards, zpre1),
                        ..s0
                    }));
                }
            } else {
                proof {
                    assert(flash_zones(s0.cards, zpre1) == flash_zones(s0.cards, zpre));
                    assert(self@ =~= (GameModel {
                        cards: flash_zones(s0.cards, zpre1),
                        ..s0
                    }));
                }
            }
            zi = zi + 1;
        }
        proof {
            assert(zones.subrange(0, zones.len() as int) =~= zones);
        }
    }
}

/// One queued action entry.
pub open spec fn act_eff(source: Targeting, targeting: Targeting, action: Action) -> EffTree {
    EffTree::Action { source, targeting, action }
}

/// Whether an attack declaration is legal: the source names one of the turn
/// owner's occupied slots that may attack; while the defender has attackable
/// slots the target must name one of them, and only when the defender has
/// none may the target name the player. Any mismatch is rejected.
pub open spec fn spec_attack_ok(s: GameModel, action: PlayerAction) -> bool {
    match action {
        PlayerAction::AttackCard { source, target } => match source {
            Targeting::TargetZone(zone_id) => {
                let zones = s.game_states[s.current_player as int].zone;
                let j = zone_idx(zones, zone_id);
                let attacked = spec_attacked_zones(s.game_states[spec_next_player(s) as int].zone);
                &&& j >= 0
                &&& zones[j].cards.len() > 0
                &&& spec_zone_can_attack(s, zones[j])
                &&& (if attacked.len() > 0 {
                    match target {
                        Targeting::TargetZone(target_id) => exists|i: int|
                            0 <= i < attacked.len() && attacked[i].id == target_id,
                        _ => false,
                    }
                } else {
                    target is TargetPlayerOpponent
                })
            },
            _ => false,
        },
        _ => false,
    }
}

/// Zone-against-zone combat, compared by printed attack values: the loser's
/// slot is emptied to the graveyard (both on a tie), and the attacking player
/// banks a point in every outcome. Only the winner's counter advances; the
/// tie path leaves both counters alone. Slots or cards that cannot be found
/// change nothing.
pub open spec fn spec_deal_fight_zone(
    s: GameModel,
    my_zone_id: EntryId,
    target_zone_id: EntryId,
) -> GameModel {
    let my_zones = s.game_states[s.current_player as int].zone;
    let other_zones = s.game_states[spec_next_player(s) as int].zone;
    let j = zone_idx(my_zones, my_zone_id);
    let k = zone_idx(other_zones, target_zone_id);
    if j < 0 || k < 0 {
        s
    } else if !(my_zones[j].front && other_zones[k].front) {
        s
    } else if my_zones[j].cards.len() == 0 || other_zones[k].cards.len() == 0 {
        s
    } else {
        let a = card_idx(s.cards, my_zones[j].cards[0]);
        let t = card_idx(s.cards, other_zones[k].cards[0]);
        if a < 0 || t < 0 {
            s
        } else {
            let my_ack = s.cards[a].info.ack;
            let t_ack = s.cards[t].info.ack;
            if my_ack > t_ack {
                GameModel {
                    effects: seq![
                        act_eff(
                            Targeting::Nothing,
                            Targeting::TargetPlayerSelf,
                            Action::AddRealPoint(1),
                        ),
                        act_eff(
                            Targeting::Nothing,
                            Targeting::Nothing,
                            Action::FightDestroy { zone_id: target_zone_id },
                        ),
                        act_eff(
                            Targeting::Nothing,
                            Targeting::Nothing,
                            Action::AttackCounterUp(my_zones[j].cards[0], 1),
                        ),
                    ] + s.effects,
                    ..s
                }
            } else if my_ack == t_ack {
                GameModel {
                    effects: seq![
                        act_eff(
                            Targeting::Nothing,
                            Targeting::TargetPlayerSelf,
                            Action::AddRealPoint(1),
                        ),
                        act_eff(
                            Targeting::Nothing,
                            Targeting::Nothing,
                            Action::FightDestroy { zone_id: my_zone_id },
                        ),
                        act_eff(
                            Targeting::Nothing,
                            Targeting::Nothing,
                            Action::FightDestroy { zone_id: target_zone_id },
                        ),
                    ] + s.effects,
                    ..s
                }
            } else {
                GameModel {
                    effects: seq![
                        act_eff(
                            Targeting::Nothing,
                            Targeting::TargetPlayerSelf,
                            Action::AddRealPoint(1),
                        ),
                        act_eff(
                            Targeting::Nothing,
                            Targeting::Nothing,
                            Action::FightDestroy { zone_id: my_zone_id },
                        ),
                    ] + s.effects,
                    ..s
                }
            }
        }
    }
}

/// A direct attack on the opponent player: the attacking slot's counter
/// advances; an empty point pool banks one point automatically, otherwise the
/// given answer decides between banking a point and spending points as
/// damage.
pub open spec fn spec_deal_fight_direct(s: GameModel, my_zone: EntryId, choice: ChoiceRes) -> GameModel {
    let zones = s.game_states[s.current_player as int].zone;
    let j = zone_idx(zones, my_zone);
    if j < 0 || !zones[j].front || zones[j].cards.len() == 0 {
        s
    } else {
        let first = zones[j].cards[0];
        let s1 = GameModel {
            effects: seq![
                act_eff(Targeting::Nothing, Targeting::Nothing, Action::AttackCounterUp(first, 1)),
            ] + s.effects,
            ..s
        };
        if s.game_states[s.current_player as int].real_point == 0 {
            GameModel {
                effects: seq![
                    act_eff(
                        Targeting::Nothing,
                        Targeting::TargetPlayerSelf,
                        Action::AddRealPoint(1),
                    ),
                ] + s1.effects,
                ..s1
            }
        } else {
            match choice {
                ChoiceRes::Nothing => GameModel {
                    effects: seq![
                        act_eff(
                            Targeting::Nothing,
                            Targeting::TargetPlayerSelf,
                            Action::AddRealPoint(1),
                        ),
                    ] + s1.effects,
                    ..s1
                },
                ChoiceRes::FightDamageByRealPoint(num) => GameModel {
                    effects: seq![
                        act_eff(
                            Targeting::TargetZone(my_zone),
                            Targeting::TargetPlayerOpponent,
                            Action::Damage(num),
                        ),
                        act_eff(
                            Targeting::Nothing,
                            Targeting::TargetPlayerSelf,
                            Action::UseRealPoint(num),
                        ),
                    ] + s1.effects,
                    ..s1
                },
                _ => s1,
            }
        }
    }
}

/// Combat dispatch: a slot-against-slot fight needs the target slot to be
/// attackable; a direct attack on the player is possible only while the
/// defender has no attackable slot. Anything else changes nothing.
pub open spec fn spec_deal_fight(
    s: GameModel,
    source: Targeting,
    target: Targeting,
    choice: ChoiceRes,
) -> GameModel {
    match source {
        Targeting::TargetZone(zone_id) => {
            let zones = s.game_states[s.current_player as int].zone;
            let j = zone_idx(zones, zone_id);
            if j < 0 || zones[j].cards.len() == 0 {
                s
            } else {
                let attacked = spec_attacked_zones(s.game_states[spec_next_player(s) as int].zone);
                match target {
                    Targeting::TargetZone(target_id) => {
                        if exists|i: int| 0 <= i < attacked.len() && attacked[i].id == target_id {
                            spec_deal_fight_zone(s, zone_id, target_id)
                        } else {
                            s
                        }
                    },
                    Targeting::TargetPlayerOpponent => {
                        if attacked.len() > 0 {
                            s
                        } else {
                            spec_deal_fight_direct(s, zone_id, choice)
                        }
                    },
                    _ => s,
                }
            }
        },
        _ => s,
    }
}

impl Game {
    /// The index of the first slot on side `p` carrying the id.
    fn find_zone_index(&self, p: usize, zone_id: EntryId) -> (r: Option<usize>)
        requires
            self.wf(),
            p < self@.game_states.len(),
        ensures
            match r {
                Option::Some(i) => i as int == zone_idx(self@.game_states[p as int].zone, zone_id)
                    && (i as int) < self@.game_states[p as int].zone.len(),
                Option::None => zone_idx(self@.game_states[p as int].zone, zone_id) == -1,
            },
    {
        let ghost zones = self@.game_states[p as int].zone;
        let mut i: usize = 0;
        while i < self.game_states[p].zone.len()
            invariant
                self.wf(),
                p < self@.game_states.len(),
                zones == self@.game_states[p as int].zone,
                0 <= i <= zones.len(),
                forall|j: int| 0 <= j < i ==> zones[j].id != zone_id,
            decreases zones.len() - i,
        {
            if self.game_states[p].zone[i].has_id(zone_id) {
                proof {
                    lemma_zone_idx(zones, zone_id);
                    let idx = zone_idx(zones, zone_id);
                    assert(zones[i as int].id == zone_id);
                    assert(idx >= 0) by {
                        if idx == -1 {
                            assert(zones[i as int].id != zone_id);
                        }
                    }
                    assert(idx >= i as int) by {
                        if idx < i as int {
                            assert(zones[idx].id == zone_id);
                        }
                    }
                    assert(idx <= i as int) by {
                        if idx > i as int {
                            assert(zones[i as int].id != zone_id);
                        }
                    }
                }
                return Some(i);
            }
            i = i + 1;
        }
        proof {
            lemma_zone_idx(zones, zone_id);
            let idx = zone_idx(zones, zone_id);
            if idx >= 0 {
                assert(zones[idx].id == zone_id);
            }
        }
        None
    }

    /// Validates an attack declaration; an illegal one is rejected with no
    /// state change.
    fn check_attack_action(&self, player_action: PlayerAction) -> (r: bool)
        requires
            self.wf(),
        ensures
            r == spec_attack_ok(self@, player_action),
    {
        match player_action {
            PlayerAction::AttackCard { source, target } => {
                match source {
                    Targeting::TargetZone(zone_id) => {
                        let p = self.current_player;
                        let i = match self.find_zone_index(p, zone_id) {
                            Option::Some(i) => i,
                            Option::None => {
                                return false;
                            },
                        };
                        if !self.game_states[p].zone[i].has_cards() {
                            return false;
                        }
                        if !self.zone_can_attack(&self.game_states[p].zone[i]) {
                            return false;
                        }
                        let attacked = self.get_attacked_zones();
                        let ghost am = spec_attacked_zones(
                            self@.game_states[spec_next_player(self@) as int].zone,
                        );
                        if attacked.len() > 0 {
                            match target {
                                Targeting::TargetZone(target_id) => {
                                    let mut k: usize = 0;
                                    let mut hit = false;
                                    while k < attacked.len() && !hit
                                        invariant
                                            0 <= k <= attacked@.len(),
                                            zones_model(attacked@) == am,
                                            hit ==> exists|m: int|
                                                0 <= m < am.len() && am[m].id == target_id,
                                            !hit ==> forall|m: int|
                                                0 <= m < k ==> am[m].id != target_id,
                                        decreases
                                                attacked@.len() - k + (if hit {
                                                    0int
                                                } else {
                                                    1int
                                                }),
                                    {
                                        if attacked[k].has_id(target_id) {
                                            proof {
                                                assert(am[k as int].id == target_id);
                                            }
                                            hit = true;
                                        } else {
                                            k = k + 1;
                                        }
                                    }
                                    proof {
                                        if !hit {
                                            assert(k >= attacked@.len());
                                            assert(forall|m: int|
                                                0 <= m < am.len() ==> am[m].id != target_id);
                                        }
                                    }
                                    hit
                                },
                                _ => false,
                            }
                        } else {
                            if let Targeting::TargetPlayerOpponent = target {
                                true
                            } else {
                                false
                            }
                        }
                    },
                    _ => false,
                }
            },
            _ => false,
        }
    }

    /// Queues one action entry at the front.
    fn push_action_effect(&mut self, source: Targeting, targeting: Targeting, action: Action)
        ensures
            final(self)@ == (GameModel {
                effects: seq![act_eff(source, targeting, action)] + old(self)@.effects,
                ..old(self)@
            }),
    {
        let ghost s0 = self@;
        let ghost qpre = self.do_effect_stacks@;
        self.do_effect_stacks.push_front(DoEffect::Action { source, targeting, action });
        proof {
            assert(effs_model(self.do_effect_stacks@) =~= seq![act_eff(source, targeting, action)]
                + effs_model(qpre));
            assert(self@ =~= (GameModel {
                effects: seq![act_eff(source, targeting, action)] + s0.effects,
                ..s0
            }));
        }
    }

    /// Resolves one declared zone-against-zone fight by queueing its
    /// consequences.
    fn deal_fight_zone(&mut self, my_zone_id: EntryId, target_zone_id: EntryId)
        requires
            old(self).wf(),
        ensures
            final(self).wf(),
            final(self)@ == spec_deal_fight_zone(old(self)@, my_zone_id, target_zone_id),
    {
        let ghost s0 = self@;
        let p = self.current_player;
        let q = self.next_player_id();
        proof {
            assert(q < s0.game_states.len());
        }
        let j = match self.find_zone_index(p, my_zone_id) {
            Option::Some(j) => j,
            Option::None => {
                return ;
            },
        };
        let k = match self.find_zone_index(q, target_zone_id) {
            Option::Some(k) => k,
            Option::None => {
                return ;
            },
        };
        let my_front = match &self.game_states[p].zone[j] {
            Zone::FrontEnd { .. } => true,
            Zone::BackEnd { .. } => false,
        };
        let other_front = match &self.game_states[q].zone[k] {
            Zone::FrontEnd { .. } => true,
            Zone::BackEnd { .. } => false,
        };
        if !(my_front && other_front) {
            return ;
        }
        let my_first = match &self.game_states[p].zone[j] {
            Zone::FrontEnd { id, cards } => {
                if cards.len() == 0 {
                    return ;
                } else {
                    cards[0]
                }
            },
            Zone::BackEnd { id, cards } => {
                return ;
            },
        };
        let other_first = match &self.game_states[q].zone[k] {
            Zone::FrontEnd { id, cards } => {
                if cards.len() == 0 {
                    return ;
                } else {
                    cards[0]
                }
            },
            Zone::BackEnd { id, cards } => {
                return ;
            },
        };
        let my_ack = match self.get(my_first) {
            Option::Some(c) => c.card_info.ack,
            Option::None => {
                return ;
            },
        };
        let other_ack = match self.get(other_first) {
            Option::Some(c) => c.card_info.ack,
            Option::None => {
                return ;
            },
        };
        if my_ack > other_ack {
            self.push_action_effect(
                Targeting::Nothing,
                Targeting::Nothing,
                Action::AttackCounterUp(my_first, 1),
            );
            self.push_action_effect(
                Targeting::Nothing,
                Targeting::Nothing,
                Action::FightDestroy { zone_id: target_zone_id },
            );
            self.push_action_effect(
                Targeting::Nothing,
                Targeting::TargetPlayerSelf,
                Action::AddRealPoint(1),
            );
            proof {
                assert(self@.effects =~= spec_deal_fight_zone(
                    s0,
                    my_zone_id,
                    target_zone_id,
                ).effects);
                assert(self@ =~= spec_deal_fight_zone(s0, my_zone_id, target_zone_id));
            }
        } else if my_ack == other_ack {
            self.push_action_effect(
                Targeting::Nothing,
                Targeting::Nothing,
                Action::FightDestroy { zone_id: target_zone_id },
            );
            self.push_action_effect(
                Targeting::Nothing,
                Targeting::Nothing,
                Action::FightDestroy { zone_id: my_zone_id },
            );
            self.push_action_effect(
                Targeting::Nothing,
                Targeting::TargetPlayerSelf,
                Action::AddRealPoint(1),
            );
            proof {
                assert(self@.effects =~= spec_deal_fight_zone(
                    s0,
                    my_zone_id,
                    target_zone_id,
                ).effects);
                assert(self@ =~= spec_deal_fight_zone(s0, my_zone_id, target_zone_id));
            }
        } else {
            self.push_action_effect(
                Targeting::Nothing,
                Targeting::Nothing,
                Action::FightDestroy { zone_id: my_zone_id },
            );
            self.push_action_effect(
                Targeting::Nothing,
                Targeting::TargetPlayerSelf,
                Action::AddRealPoint(1),
            );
            proof {
                assert(self@.effects =~= spec_deal_fight_zone(
                    s0,
                    my_zone_id,
                    target_zone_id,
                ).effects);
                assert(self@ =~= spec_deal_fight_zone(s0, my_zone_id, target_zone_id));
            }
        }
    }

    /// Resolves a declared direct attack by queueing its consequences; the
    /// given answer decides how an available point pool is used.
    fn deal_fight_direct(&mut self, my_zone: EntryId, choice: ChoiceRes)
        requires
            old(self).wf(),
        ensures
            final(self).wf(),
            final(self)@ == spec_deal_fight_direct(old(self)@, my_zone, choice),
    {
        let ghost s0 = self@;
        let p = self.current_player;
        let j = match self.find_zone_index(p, my_zone) {
            Option::Some(j) => j,
            Option::None => {
                return ;
            },
        };
        let first = match &self.game_states[p].zone[j] {
            Zone::FrontEnd { id, cards } => {
                if cards.len() == 0 {
                    return ;
                } else {
                    cards[0]
                }
            },
            Zone::BackEnd { id, cards } => {
                return ;
            },
        };
        self.push_action_effect(
            Targeting::Nothing,
            Targeting::Nothing,
            Action::AttackCounterUp(first, 1),
        );
        if self.game_states[p].real_point == 0 {
            self.push_action_effect(
                Targeting::Nothing,
                Targeting::TargetPlayerSelf,
                Action::AddRealPoint(1),
            );
            proof {
                assert(self@.effects =~= spec_deal_fight_direct(s0, my_zone, choice).effects);
                assert(self@ =~= spec_deal_fight_direct(s0, my_zone, choice));
            }
        } else {
            match choice {
                ChoiceRes::Nothing => {
                    self.push_action_effect(
                        Targeting::Nothing,
                        Targeting::TargetPlayerSelf,
                        Action::AddRealPoint(1),
                    );
                    proof {
                        assert(self@.effects =~= spec_deal_fight_direct(
                            s0,
                            my_zone,
                            ChoiceRes::Nothing,
                        ).effects);
                        assert(self@ =~= spec_deal_fight_direct(s0, my_zone, ChoiceRes::Nothing));
                    }
                },
                ChoiceRes::FightDamageByRealPoint(num) => {
                    self.push_action_effect(
                        Targeting::Nothing,
                        Targeting::TargetPlayerSelf,
                        Action::UseRealPoint(num),
                    );
                    self.push_action_effect(
                        Targeting::TargetZone(my_zone),
                        Targeting::TargetPlayerOpponent,
                        Action::Damage(num),
                    );
                    proof {
                        assert(self@.effects =~= spec_deal_fight_direct(
                            s0,
                            my_zone,
                            ChoiceRes::FightDamageByRealPoint(num),
                        ).effects);
                        assert(self@ =~= spec_deal_fight_direct(
                            s0,
                            my_zone,
                            ChoiceRes::FightDamageByRealPoint(num),
                        ));
                    }
                },
                ChoiceRes::Cost { hands, real_point } => {
                    proof {
                        assert(self@ =~= spec_deal_fight_direct(
                            s0,
                            my_zone,
                            ChoiceRes::Cost { hands, real_point },
                        ));
                    }
                },
            }
        }
    }

    /// Routes a validated attack: slot against slot when the named target is
    /// attackable, directly at the player when the defender has no attackable
    /// slot; anything else changes nothing.
    pub fn deal_fight(&mut self, source: Targeting, target: Targeting, choice: ChoiceRes)
        requires
            old(self).wf(),
        ensures
            final(self).wf(),
            final(self)@ == spec_deal_fight(old(self)@, source, target, choice),
    {
        let ghost s0 = self@;
        match source {
            Targeting::TargetZone(zone_id) => {
                let p = self.current_player;
                let j = match self.find_zone_index(p, zone_id) {
                    Option::Some(j) => j,
                    Option::None => {
                        return ;
                    },
                };
                if !self.game_states[p].zone[j].has_cards() {
                    return ;
                }
                match target {
                    Targeting::TargetZone(target_id) => {
                        let attacked = self.get_attacked_zones();
                        let ghost am = spec_attacked_zones(
                            s0.game_states[spec_next_player(s0) as int].zone,
                        );
                        let mut i: usize = 0;
                        let mut hit = false;
                        while i < attacked.len() && !hit
                            invariant
                                0 <= i <= attacked@.len(),
                                zones_model(attacked@) == am,
                                hit ==> exists|m: int| 0 <= m < am.len() && am[m].id == target_id,
                                !hit ==> forall|m: int| 0 <= m < i ==> am[m].id != target_id,
                            decreases attacked@.len() - i + (if hit { 0int } else { 1int }),
                        {
                            if attacked[i].has_id(target_id) {
                                proof {
                                    assert(am[i as int].id == target_id);
                                }
                                hit = true;
                            } else {
                                i = i + 1;
                            }
                        }
                        if hit {
                            self.deal_fight_zone(zone_id, target_id);
                            proof {
                                assert(exists|m: int| 0 <= m < am.len() && am[m].id == target_id);
                                assert(self@ == spec_deal_fight_zone(s0, zone_id, target_id));
                                assert(spec_deal_fight(s0, source, target, choice)
                                    == spec_deal_fight_zone(s0, zone_id, target_id));
                            }
                        } else {
                            proof {
                                assert(i >= attacked@.len());
                                assert(am.len() == attacked@.len());
                                assert(forall|m: int| 0 <= m < am.len() ==> am[m].id != target_id);
                                assert(!(exists|m: int|
                                    0 <= m < am.len() && am[m].id == target_id));
                                assert(spec_deal_fight(s0, source, target, choice) == s0);
                            }
                        }
                    },
                    Targeting::TargetPlayerOpponent => {
                        let attacked = self.get_attacked_zones();
                        if attacked.len() == 0 {
                            self.deal_fight_direct(zone_id, choice);
                            proof {
                                assert(self@ =~= spec_deal_fight(s0, source, target, choice));
                            }
                        } else {
                            proof {
                                assert(self@ =~= spec_deal_fight(s0, source, target, choice));
                            }
                        }
                    },
                    _ => {},
                }
            },
            _ => {},
        }
    }
}

/// What a valid answer owes the engine: on a play that will actually reach
/// payment (a known, costly, affordable card), a cost answer may not spend
/// more banked points than the pool holds. The engine trusts the answer and
/// does not verify it against the printed cost; the caller is held only to
/// not overdrawing the pool.
pub open spec fn spec_choice_ok(s: GameModel, action: PlayerAction, choice: ChoiceRes) -> bool {
    match action {
        PlayerAction::SetCard { card_id, zone_id } => {
            let j = card_idx(s.cards, card_id);
            let gs = s.game_states[s.current_player as int];
            let hand2 = remove_all(gs.hand, card_id);
            (j >= 0 && zone_idx(gs.zone, zone_id) >= 0 && s.cards[j].info.cost > 0
                && spec_can_afford(
                hand2.len() as int,
                gs.cost.len() as int,
                gs.real_point as int,
                s.cards[j].info.cost as int,
            )) ==> (match choice {
                ChoiceRes::Cost { hands, real_point } => real_point <= gs.real_point,
                _ => true,
            })
        },
        _ => true,
    }
}

/// The staged state of an accepted play: the cost paid and the placement
/// queued, ready for the processor.
pub open spec fn spec_play_staged(
    s1: GameModel,
    card_id: EntryId,
    zone_id: EntryId,
    hands: Seq<EntryId>,
    real_point: usize,
) -> GameModel {
    let s2 = spec_pay_cost(s1, hands, real_point);
    GameModel {
        effects: seq![
            act_eff(
                Targeting::TargetPlayerSelf,
                Targeting::Nothing,
                Action::SetCard { card_id, zone_id },
            ),
        ] + s2.effects,
        ..s2
    }
}

/// The state an externally-issued action stages, before the processor drains
/// the queue: a play leaves the hand and either reaches payment and placement
/// or rolls back (an unknown card or an unknown target slot is rejected
/// before anything is paid); a validated attack queues its combat
/// consequences; anything else changes nothing.
pub open spec fn spec_stage(s: GameModel, action: PlayerAction, choice: ChoiceRes) -> GameModel {
    match action {
        PlayerAction::SetCard { card_id, zone_id } => {
            let s1 = spec_leave_hand(s, card_id);
            let j = card_idx(s.cards, card_id);
            if j < 0 {
                spec_set_rollback(s1, card_id)
            } else if zone_idx(s.game_states[s.current_player as int].zone, zone_id) < 0 {
                spec_set_rollback(s1, card_id)
            } else {
                let cost = s.cards[j].info.cost;
                let gs1 = s1.game_states[s1.current_player as int];
                if cost == 0 {
                    spec_play_staged(s1, card_id, zone_id, Seq::empty(), 0)
                } else if !spec_can_afford(
                    gs1.hand.len() as int,
                    gs1.cost.len() as int,
                    gs1.real_point as int,
                    cost as int,
                ) {
                    spec_set_rollback(s1, card_id)
                } else {
                    match choice {
                        ChoiceRes::Cost { hands, real_point } => spec_play_staged(
                            s1,
                            card_id,
                            zone_id,
                            hands@,
                            real_point,
                        ),
                        _ => spec_set_rollback(s1, card_id),
                    }
                }
            }
        },
        PlayerAction::AttackCard { source, target } => {
            if spec_attack_ok(s, action) {
                spec_deal_fight(s, source, target, choice)
            } else {
                s
            }
        },
        _ => s,
    }
}

impl Game {
    /// Validates and routes one externally-issued action, then drains the
    /// queue to quiescence. A play that cannot be paid for, names an unknown
    /// card or an unknown board slot, or is cancelled rolls back to the hand;
    /// an illegal attack is rejected; the match state is exactly a model run
    /// from the staged state.
    pub fn deal_player_action(&mut self, player_action: PlayerAction, choice: ChoiceRes) -> (r:
        Result<(), ProcessError>)
        requires
            old(self).wf(),
            quiescent(old(self)@),
            spec_choice_ok(old(self)@, player_action, choice),
        ensures
            final(self).wf(),
            ({
                let staged = spec_stage(old(self)@, player_action, choice);
                match r {
                    Result::Ok(()) => quiescent(final(self)@) && (exists|n: nat|
                        final(self)@ == run_steps(staged, n)),
                    Result::Err(_) => final(self)@ == run_steps(staged, EFFECT_BUDGET as nat)
                        && !quiescent(run_steps(staged, EFFECT_BUDGET as nat)),
                }
            }),
    {
        let ghost s0 = self@;
        match player_action {
            PlayerAction::SetCard { card_id, zone_id } => {
                self.leave_hand(card_id);
                let ghost s1 = self@;
                let cost = match self.get(card_id) {
                    Option::Some(c) => c.card_info.cost,
                    Option::None => {
                        self.set_rollback(card_id);
                        proof {
                            assert(self@ == spec_stage(s0, player_action, choice));
                            assert(quiescent(self@));
                            assert(self@ == run_steps(spec_stage(s0, player_action, choice), 0));
                        }
                        return Ok(());
                    },
                };
                let p = self.current_player;
                if self.find_zone_index(p, zone_id).is_none() {
                    self.set_rollback(card_id);
                    proof {
                        assert(self@ == spec_stage(s0, player_action, choice));
                        assert(quiescent(self@));
                        assert(self@ == run_steps(spec_stage(s0, player_action, choice), 0));
                    }
                    return Ok(());
                }
                if cost == 0 {
                    let empty_hands: Vec<EntryId> = Vec::new();
                    let ghost empty_m = empty_hands@;
                    self.cost(empty_hands, 0);
                    proof {
                        assert(empty_m =~= Seq::<EntryId>::empty());
                        assert(self@ == spec_pay_cost(s1, Seq::empty(), 0));
                    }
                    self.push_set_effect(card_id, zone_id);
                    proof {
                        assert(self@ =~= spec_play_staged(s1, card_id, zone_id, Seq::empty(), 0));
                        assert(self@ == spec_stage(s0, player_action, choice));
                    }
                    let r = self.process_effect();
                    return r;
                }
                let affordable = match self.check_cost(card_id) {
                    Option::Some(b) => b,
                    Option::None => false,
                };
                if !affordable {
                    self.set_rollback(card_id);
                    proof {
                        assert(self@ == spec_stage(s0, player_action, choice));
                        assert(quiescent(self@));
                        assert(self@ == run_steps(spec_stage(s0, player_action, choice), 0));
                    }
                    return Ok(());
                }
                match choice {
                    ChoiceRes::Cost { hands, real_point } => {
                        let ghost hands_m = hands@;
                        self.cost(hands, real_point);
                        self.push_set_effect(card_id, zone_id);
                        proof {
                            assert(self@ =~= spec_play_staged(
                                s1,
                                card_id,
                                zone_id,
                                hands_m,
                                real_point,
                            ));
                            assert(self@ == spec_stage(s0, player_action, choice));
                        }
                        let r = self.process_effect();
                        return r;
                    },
                    _ => {
                        self.set_rollback(card_id);
                        proof {
                            assert(self@ == spec_stage(s0, player_action, choice));
                            assert(quiescent(self@));
                            assert(self@ == run_steps(spec_stage(s0, player_action, choice), 0));
                        }
                        return Ok(());
                    },
                }
            },
            PlayerAction::EffectCard { .. } => {
                proof {
                    assert(self@ == run_steps(spec_stage(s0, player_action, choice), 0));
                }
                Ok(())
            },
            PlayerAction::AttackCard { source, target } => {
                if self.check_attack_action(player_action) {
                    let _attack_window = self.emit_event(WindowEvent::Attack { source, target });
                    proof {
                        match _attack_window {
                            Result::Ok(()) => {
                                let n = choose|n: nat| self@ == run_steps(s0, n);
                                crate::model::lemma_quiescent_fixpoint(s0, n);
                            },
                            Result::Err(_) => {
                                crate::model::lemma_quiescent_fixpoint(s0, EFFECT_BUDGET as nat);
                            },
                        }
                        assert(self@ == s0);
                    }
                    self.deal_fight(source, target, choice);
                    proof {
                        assert(self@ == spec_stage(s0, player_action, choice));
                    }
                    let r = self.process_effect();
                    r
                } else {
                    proof {
                        assert(self@ == run_steps(spec_stage(s0, player_action, choice), 0));
                    }
                    Ok(())
                }
            },
            PlayerAction::Pass => {
                proof {
                    assert(self@ == run_steps(spec_stage(s0, player_action, choice), 0));
                }
                Ok(())
            },
        }
    }

    /// The state a phase entry stages before any processing: the turn-start
    /// refresh, or the queued draw of the draw phase.
    pub open spec fn spec_phase_stage(s: GameModel) -> GameModel {
        match s.current_phase {
            GamePhase::Start => GameModel {
                cards: flash_zones(s.cards, s.game_states[s.current_player as int].zone),
                ..s
            },
            GamePhase::Draw => GameModel {
                effects: seq![
                    act_eff(Targeting::Nothing, Targeting::TargetPlayerSelf, Action::Draw(1)),
                ] + s.effects,
                ..s
            },
            _ => s,
        }
    }

    /// Performs the current phase's entry behavior and advances the cycle:
    /// the start phase refreshes counters, the draw phase queues and resolves
    /// a draw, the interactive phases read their actions through
    /// `deal_player_action` before this is called, and leaving the end phase
    /// hands the turn over. On an exhausted budget the phase does not
    /// advance.
    pub fn step_phase(&mut self) -> (r: Result<(), ProcessError>)
        requires
            old(self).wf(),
            quiescent(old(self)@),
        ensures
            final(self).wf(),
            ({
                let staged = Game::spec_phase_stage(old(self)@);
                match r {
                    Result::Ok(()) => exists|n: nat|
                        quiescent(run_steps(staged, n)) && final(self)@ == spec_next_phase(
                            run_steps(staged, n),
                        ),
                    Result::Err(_) => final(self)@ == run_steps(staged, EFFECT_BUDGET as nat)
                        && !quiescent(run_steps(staged, EFFECT_BUDGET as nat)),
                }
            }),
    {
        let ghost s0 = self@;
        match self.current_phase {
            GamePhase::Start => {
                self.flash_cards();
                let ghost staged = self@;
                self.next_phase();
                proof {
                    assert(staged == Game::spec_phase_stage(s0));
                    assert(quiescent(run_steps(staged, 0)) && self@ == spec_next_phase(
                        run_steps(staged, 0),
                    ));
                }
                Ok(())
            },
            GamePhase::Draw => {
                self.push_action_effect(
                    Targeting::Nothing,
                    Targeting::TargetPlayerSelf,
                    Action::Draw(1),
                );
                let ghost staged = self@;
                proof {
                    assert(staged =~= Game::spec_phase_stage(s0));
                }
                match self.process_effect() {
                    Result::Ok(()) => {
                        let ghost n = choose|n: nat| self@ == run_steps(staged, n);
                        proof {
                            assert(quiescent(run_steps(staged, n)));
                        }
                        self.next_phase();
                        proof {
                            assert(quiescent(run_steps(staged, n)) && self@ == spec_next_phase(
                                run_steps(staged, n),
                            ));
                        }
                        Ok(())
                    },
                    Result::Err(e) => Err(e),
                }
            },
            _ => {
                self.next_phase();
                proof {
                    assert(Game::spec_phase_stage(s0) == s0);
                    assert(quiescent(run_steps(s0, 0)) && self@ == spec_next_phase(
                        run_steps(s0, 0),
                    ));
                }
                Ok(())
            },
        }
    }
}

/// The entry ids of a run of instances, in order.
pub open spec fn card_ids(cards: Seq<CardModel>) -> Seq<EntryId> {
    Seq::new(cards.len(), |k: int| cards[k].entry_id)
}

/// How many fresh ids the first `i` players consume: one per instance their
/// deck lists create, plus eight board slots each.
pub open spec fn spec_gen_before(
    players: Seq<crate::player::PlayerModel>,
    cat: Seq<CardInfoModel>,
    i: int,
) -> int
    decreases i,
{
    if i <= 0 {
        0
    } else {
        spec_gen_before(players, cat, i - 1) + spec_found_count(players[i - 1].desk, cat) + 8
    }
}

/// An upper bound on the ids the first `i` players can consume.
pub open spec fn spec_ids_upto(players: Seq<crate::player::PlayerModel>, i: int) -> int
    decreases i,
{
    if i <= 0 {
        0
    } else {
        spec_ids_upto(players, i - 1) + players[i - 1].desk.len() + 8
    }
}

/// The instances one player's deck list creates.
pub open spec fn spec_player_cards(
    players: Seq<crate::player::PlayerModel>,
    cat: Seq<CardInfoModel>,
    i: int,
) -> Seq<CardModel> {
    spec_init_cards(players[i].desk, cat, spec_gen_before(players, cat, i))
}

/// The whole registry after setup: every player's instances, first player
/// first.
pub open spec fn spec_cards_prefix(
    players: Seq<crate::player::PlayerModel>,
    cat: Seq<CardInfoModel>,
    i: int,
) -> Seq<CardModel>
    decreases i,
{
    if i <= 0 {
        Seq::empty()
    } else {
        spec_cards_prefix(players, cat, i - 1) + spec_player_cards(players, cat, i - 1)
    }
}

pub proof fn lemma_gen_le_upto(
    players: Seq<crate::player::PlayerModel>,
    cat: Seq<CardInfoModel>,
    i: int,
)
    ensures
        0 <= spec_gen_before(players, cat, i) <= spec_ids_upto(players, i),
        i > 0 ==> spec_gen_before(players, cat, i - 1) + players[i - 1].desk.len() + 8
            <= spec_ids_upto(players, i),
    decreases i,
{
    if i > 0 {
        lemma_gen_le_upto(players, cat, i - 1);
        lemma_found_count_bound(players[i - 1].desk, cat);
    }
}

pub proof fn lemma_upto_mono(players: Seq<crate::player::PlayerModel>, i: int, j: int)
    requires
        0 <= i <= j,
    ensures
        spec_ids_upto(players, i) <= spec_ids_upto(players, j),
    decreases j - i,
{
    if i < j {
        lemma_upto_mono(players, i, j - 1);
    }
}

/// Reversal keeps exactly the same entries.
pub proof fn lemma_reverse_multiset(s: Seq<EntryId>)
    ensures
        s.reverse().to_multiset() == s.to_multiset(),
    decreases s.len(),
{
    broadcast use vstd::seq_lib::group_to_multiset_ensures;

    if s.len() == 0 {
        assert(s.reverse() =~= s);
    } else {
        let s0 = s.drop_last();
        lemma_reverse_multiset(s0);
        assert(s.reverse() =~= s0.reverse().insert(0, s.last()));
        assert(s0.reverse().insert(0, s.last()).remove(0) =~= s0.reverse());
        assert(s0.reverse().insert(0, s.last()).to_multiset().remove(s.last())
            =~= s0.reverse().to_multiset());
        assert(s =~= s0.push(s.last()));
        assert(s.to_multiset() =~= s0.to_multiset().insert(s.last()));
        assert(s.reverse().to_multiset() =~= s.to_multiset());
    }
}

/// What one side looks like right after setup: full life, empty pools and
/// piles, a fresh board, and a deck plus opening hand that together hold
/// exactly the instances made for it.
pub open spec fn spec_initial_state_ok(
    players: Seq<crate::player::PlayerModel>,
    cat: Seq<CardInfoModel>,
    gs: GameStateModel,
    i: int,
) -> bool {
    &&& gs.player_id == players[i].id
    &&& gs.hp == 6
    &&& gs.real_point == 0
    &&& gs.cost == Seq::<EntryId>::empty()
    &&& gs.grave == Seq::<EntryId>::empty()
    &&& gs.zone == spec_zone_init(
        spec_gen_before(players, cat, i) + spec_found_count(players[i].desk, cat),
    )
    &&& (gs.desk + gs.hand).to_multiset() == card_ids(
        spec_player_cards(players, cat, i),
    ).to_multiset()
    &&& gs.desk.len() + gs.hand.len() == spec_player_cards(players, cat, i).len()
    &&& gs.hand.len() == min(5, spec_player_cards(players, cat, i).len() as int)
}

impl Game {
    /// Sets a match up: one instance per deck entry the catalog knows, a
    /// shuffled deck and an opening hand of up to five cards per player, and
    /// the first player on the start phase.
    pub fn new(players: Vec<Player>, lua_api: &LuaApi) -> (r: Game)
        requires
            players@.len() >= 1,
            spec_ids_upto(players_model(players@), players@.len() as int) <= usize::MAX,
        ensures
            r.wf(),
            r@.players == players_model(players@),
            r@.current_phase == GamePhase::Start,
            r@.current_player == 0,
            r@.effects == Seq::<EffTree>::empty(),
            r@.diffs == Seq::<GameDiff>::empty(),
            r@.cards == spec_cards_prefix(players_model(players@), lua_api@, players@.len() as int),
            r@.game_states.len() == players@.len(),
            forall|i: int|
                0 <= i < players@.len() ==> spec_initial_state_ok(
                    players_model(players@),
                    lua_api@,
                    #[trigger] r@.game_states[i],
                    i,
                ),
    {
        let ghost pm = players_model(players@);
        let ghost cat = lua_api@;
        let mut id_generator = IdGenerator::new();
        let mut cards_all: Vec<Card> = Vec::new();
        let mut games_states: Vec<GameState> = Vec::new();
        let mut i: usize = 0;
        proof {
            assert(cards_model(cards_all@) =~= spec_cards_prefix(pm, cat, 0));
        }
        while i < players.len()
            invariant
                0 <= i <= players@.len(),
                pm == players_model(players@),
                pm.len() == players@.len(),
                cat == lua_api@,
                spec_ids_upto(pm, pm.len() as int) <= usize::MAX,
                id_generator.0 == spec_gen_before(pm, cat, i as int),
                cards_model(cards_all@) == spec_cards_prefix(pm, cat, i as int),
                forall|k: int|
                    0 <= k < cards_all@.len() ==> 0 < (#[trigger] cards_model(cards_all@)[k]).entry_id
                        <= id_generator.0,
                forall|k1: int, k2: int|
                    0 <= k1 < k2 < cards_all@.len() ==> cards_model(cards_all@)[k1].entry_id
                        != cards_model(cards_all@)[k2].entry_id,
                games_states@.len() == i,
                forall|t: int|
                    0 <= t < i ==> spec_initial_state_ok(
                        pm,
                        cat,
                        #[trigger] states_model(games_states@)[t],
                        t,
                    ),
            decreases players@.len() - i,
        {
            let ghost gen0 = id_generator.0 as int;
            proof {
                lemma_gen_le_upto(pm, cat, i + 1);
                lemma_upto_mono(pm, i + 1, pm.len() as int);
                assert(pm[i as int].desk == players@[i as int]@.desk);
                assert(gen0 + pm[i as int].desk.len() + 8 <= usize::MAX);
            }
            let cards = Card::init(&players[i].player_desk, lua_api, &mut id_generator);
            let ghost batch = cards_model(cards@);
            proof {
                assert(players[i as int].player_desk@ == pm[i as int].desk);
                assert(batch == spec_player_cards(pm, cat, i as int));
                lemma_init_cards_ids(pm[i as int].desk, cat, gen0);
                lemma_found_count_bound(pm[i as int].desk, cat);
            }
            let mut game_state = GameState::new(players[i].id, &cards, &mut id_generator);
            proof {
                assert(game_state@.desk =~= card_ids(batch));
            }
            let ghost gs0 = game_state@;
            game_state.shuffle();
            let ghost gs1 = game_state@;
            game_state.draw(5);
            let ghost gs_final = game_state@;
            proof {
                lemma_draw_conserves(gs1, 5);
                assert(gs0.desk.to_multiset() == card_ids(batch).to_multiset());
                assert((gs_final.desk + gs_final.hand).to_multiset() == card_ids(
                    batch,
                ).to_multiset());
            }
            let mut cards_mv = cards;
            let ghost built0 = cards_model(cards_all@);
            proof {
                assert(cards_model(cards_mv@) =~= batch.subrange(
                    batch.len() - cards_mv@.len(),
                    batch.len() as int,
                ));
                assert(cards_model(cards_all@) =~= built0 + batch.subrange(
                    0,
                    batch.len() - cards_mv@.len(),
                ));
            }
            while cards_mv.len() > 0
                invariant
                    cards_mv@.len() <= batch.len(),
                    cards_model(cards_mv@) == batch.subrange(
                        batch.len() - cards_mv@.len(),
                        batch.len() as int,
                    ),
                    cards_model(cards_all@) == built0 + batch.subrange(
                        0,
                        batch.len() - cards_mv@.len(),
                    ),
                decreases cards_mv@.len(),
            {
                let ghost done = batch.len() - cards_mv@.len();
                let ghost mv_pre = cards_model(cards_mv@);
                let ghost all_pre = cards_model(cards_all@);
                let ghost old_mv = cards_mv@;
                let c = cards_mv.remove(0);
                let ghost c_m = c@;
                cards_all.push(c);
                proof {
                    assert(c_m == mv_pre[0]);
                    assert(c_m == batch[done]);
                    assert(cards_model(cards_all@) =~= all_pre.push(c_m));
                    assert forall|m: int| 0 <= m < cards_mv@.len() implies (
                    #[trigger] cards_model(cards_mv@)[m]) == batch[done + 1 + m] by {
                        assert(cards_mv@[m] == old_mv[m + 1]);
                        assert(cards_model(cards_mv@)[m] == cards_mv@[m]@);
                        assert(mv_pre[m + 1] == old_mv[m + 1]@);
                        assert(mv_pre[m + 1] == batch[done + 1 + m]);
                    }
                    assert(cards_model(cards_mv@) =~= batch.subrange(
                        batch.len() - cards_mv@.len(),
                        batch.len() as int,
                    ));
                    assert(cards_model(cards_all@) =~= built0 + batch.subrange(0, done + 1));
                }
            }
            let ghost states_pre = states_model(games_states@);
            games_states.push(game_state);
            i = i + 1;
            proof {
                assert(states_model(games_states@) =~= states_pre.push(gs_final));
                assert(batch.subrange(0, batch.len() as int) =~= batch);
                assert(cards_model(cards_all@) == built0 + batch);
                assert(cards_model(cards_all@) =~= spec_cards_prefix(pm, cat, i as int));
                assert forall|k1: int, k2: int|
                    0 <= k1 < k2 < cards_all@.len() implies cards_model(cards_all@)[k1].entry_id
                    != cards_model(cards_all@)[k2].entry_id by {
                    if k2 >= built0.len() {
                        assert(cards_model(cards_all@)[k2] == batch[k2 - built0.len()]);
                        if k1 >= built0.len() {
                            assert(cards_model(cards_all@)[k1] == batch[k1 - built0.len()]);
                        } else {
                            assert(cards_model(cards_all@)[k1] == built0[k1]);
                        }
                    } else {
                        assert(cards_model(cards_all@)[k1] == built0[k1]);
                        assert(cards_model(cards_all@)[k2] == built0[k2]);
                    }
                }
                assert forall|k: int| 0 <= k < cards_all@.len() implies 0 < (
                #[trigger] cards_model(cards_all@)[k]).entry_id <= id_generator.0 by {
                    if k >= built0.len() {
                        assert(cards_model(cards_all@)[k] == batch[k - built0.len()]);
                    } else {
                        assert(cards_model(cards_all@)[k] == built0[k]);
                    }
                }
                assert(spec_initial_state_ok(pm, cat, gs_final, i - 1));
                assert forall|t: int|
                    0 <= t < i implies spec_initial_state_ok(
                    pm,
                    cat,
                    #[trigger] states_model(games_states@)[t],
                    t,
                ) by {
                    if t == i - 1 {
                        assert(states_model(games_states@)[t] == gs_final);
                    } else {
                        assert(states_model(games_states@)[t] == states_pre[t]);
                    }
                }
            }
        }
        let r = Game {
            players,
            current_phase: GamePhase::Start,
            current_player: 0,
            cards: cards_all,
            game_states: games_states,
            id_generator,
            do_effect_stacks: VecDeque::new(),
            game_diff_list: Vec::new(),
        };
        proof {
            assert(r@.effects =~= Seq::<EffTree>::empty());
            assert(r@.diffs =~= Seq::<GameDiff>::empty());
            assert forall|p: int, ii: int, jj: int|
                0 <= p < r@.game_states.len() && 0 <= ii < jj < r@.game_states[p].zone.len()
                    implies r@.game_states[p].zone[ii].id != r@.game_states[p].zone[jj].id by {
                assert(spec_initial_state_ok(pm, cat, r@.game_states[p], p));
                lemma_gen_le_upto(pm, cat, p);
                lemma_gen_le_upto(pm, cat, p + 1);
                lemma_upto_mono(pm, p + 1, pm.len() as int);
                lemma_found_count_bound(pm[p].desk, cat);
                let g = spec_gen_before(pm, cat, p) + spec_found_count(pm[p].desk, cat);
                assert(0 <= g);
                assert(spec_gen_before(pm, cat, p + 1) == g + 8);
                assert(g + 8 <= usize::MAX);
                assert(r@.game_states[p].zone[ii].id == (g + ii + 1) as usize);
                assert(r@.game_states[p].zone[jj].id == (g + jj + 1) as usize);
            }
            assert(r.wf());
        }
        r
    }
}

/// Drawing from an empty hand splits exactly the deck's entries between deck
/// and hand.
proof fn lemma_draw_conserves(gs: GameStateModel, n: usize)
    requires
        gs.hand.len() == 0,
    ensures
        (apply_draw_state(gs, n).desk + apply_draw_state(gs, n).hand).to_multiset()
            == gs.desk.to_multiset(),
        apply_draw_state(gs, n).desk.len() + apply_draw_state(gs, n).hand.len() == gs.desk.len(),
        apply_draw_state(gs, n).hand.len() == min(n as int, gs.desk.len() as int),
{
    let k: int = if n <= gs.desk.len() {
        n as int
    } else {
        gs.desk.len() as int
    };
    let desk2 = gs.desk.subrange(0, gs.desk.len() - k);
    let dropped = gs.desk.subrange(gs.desk.len() - k, gs.desk.len() as int);
    let hand2 = gs.hand + dropped.reverse();
    assert(hand2 =~= dropped.reverse());
    vstd::seq_lib::lemma_multiset_commutative(desk2, hand2);
    lemma_reverse_multiset(dropped);
    vstd::seq_lib::lemma_multiset_commutative(desk2, dropped);
    assert(desk2 + dropped =~= gs.desk);
    assert((apply_draw_state(gs, n).desk + apply_draw_state(gs, n).hand).to_multiset()
        =~= gs.desk.to_multiset());
}
} // verus!
