//! The mathematical model of a running match: ghost mirrors of the engine's
//! state and the small-step semantics of effect resolution. Every contract of
//! the executable engine is stated over these shapes.

use crate::card::CardModel;
use crate::common::{EntryId, PlayerId};
use crate::effect::{Action, EffTree, EffectModel, WindowsTag};
use crate::game::GamePhase;
use crate::game_diff::GameDiff;
use crate::player::PlayerModel;
use crate::targeting::Targeting;
use vstd::prelude::*;

verus! {

/// A board slot: front-row slots are combat-eligible, back-row ones are not.
#[verifier::ext_equal]
pub ghost struct ZoneModel {
    pub front: bool,
    pub id: EntryId,
    pub cards: Seq<EntryId>,
}

/// One player's side of the match.
#[verifier::ext_equal]
pub ghost struct GameStateModel {
    pub player_id: PlayerId,
    pub hp: usize,
    pub real_point: usize,
    /// Deck, drawn from the tail.
    pub desk: Seq<EntryId>,
    pub hand: Seq<EntryId>,
    pub cost: Seq<EntryId>,
    pub grave: Seq<EntryId>,
    pub zone: Seq<ZoneModel>,
}

/// The whole match state.
#[verifier::ext_equal]
pub ghost struct GameModel {
    pub players: Seq<PlayerModel>,
    pub current_phase: GamePhase,
    pub current_player: PlayerId,
    /// The entity registry: every card instance of the match.
    pub cards: Seq<CardModel>,
    pub game_states: Seq<GameStateModel>,
    /// The id generator's counter.
    pub next_entry: usize,
    /// The pending-effect queue, front first.
    pub effects: Seq<EffTree>,
    /// The append-only diff log.
    pub diffs: Seq<GameDiff>,
}

/// Basic shape every reachable match state keeps: container lengths agree,
/// the turn owner is a real player, entry ids in the registry are distinct,
/// and each player's board slots carry distinct ids.
pub open spec fn wf_model(s: GameModel) -> bool {
    &&& s.players.len() >= 1
    &&& s.game_states.len() == s.players.len()
    &&& s.current_player < s.players.len()
    &&& forall|i: int, j: int|
        0 <= i < j < s.cards.len() ==> s.cards[i].entry_id != s.cards[j].entry_id
    &&& forall|p: int, i: int, j: int|
        0 <= p < s.game_states.len() && 0 <= i < j < s.game_states[p].zone.len()
            ==> s.game_states[p].zone[i].id != s.game_states[p].zone[j].id
}

/// The opponent of the turn owner.
pub open spec fn spec_next_player(s: GameModel) -> PlayerId {
    ((s.current_player + 1) as int % (s.players.len() as int)) as usize
}

/// Which player an effect aimed at a player resolves against.
pub open spec fn target_player(s: GameModel, targeting: Targeting) -> Option<PlayerId> {
    match targeting {
        Targeting::TargetPlayerSelf => Option::Some(s.current_player),
        Targeting::TargetPlayerOpponent => Option::Some(spec_next_player(s)),
        _ => Option::None,
    }
}

/// Index of the first registry entry with this id, or -1.
pub open spec fn card_idx(cards: Seq<CardModel>, id: EntryId) -> int
    decreases cards.len(),
{
    if cards.len() <= 0 {
        -1
    } else if cards[0].entry_id == id {
        0
    } else {
        let r = card_idx(cards.subrange(1, cards.len() as int), id);
        if r < 0 {
            -1
        } else {
            r + 1
        }
    }
}

pub proof fn lemma_card_idx(cards: Seq<CardModel>, id: EntryId)
    ensures
        -1 <= card_idx(cards, id) < cards.len(),
        card_idx(cards, id) >= 0 ==> cards[card_idx(cards, id)].entry_id == id,
        card_idx(cards, id) >= 0 ==> forall|j: int|
            0 <= j < card_idx(cards, id) ==> cards[j].entry_id != id,
        card_idx(cards, id) == -1 ==> forall|j: int|
            0 <= j < cards.len() ==> cards[j].entry_id != id,
    decreases cards.len(),
{
    if cards.len() > 0 && cards[0].entry_id != id {
        let tail = cards.subrange(1, cards.len() as int);
        lemma_card_idx(tail, id);
        if card_idx(tail, id) >= 0 {
            assert forall|j: int| 0 <= j < card_idx(cards, id) implies cards[j].entry_id != id by {
                if j > 0 {
                    assert(cards[j] == tail[j - 1]);
                }
            }
        } else {
            assert forall|j: int| 0 <= j < cards.len() implies cards[j].entry_id != id by {
                if j > 0 {
                    assert(cards[j] == tail[j - 1]);
                }
            }
        }
    }
}

/// Index of the first board slot with this id, or -1.
pub open spec fn zone_idx(zones: Seq<ZoneModel>, id: EntryId) -> int
    decreases zones.len(),
{
    if zones.len() <= 0 {
        -1
    } else if zones[0].id == id {
        0
    } else {
        let r = zone_idx(zones.subrange(1, zones.len() as int), id);
        if r < 0 {
            -1
        } else {
            r + 1
        }
    }
}

pub proof fn lemma_zone_idx(zones: Seq<ZoneModel>, id: EntryId)
    ensures
        -1 <= zone_idx(zones, id) < zones.len(),
        zone_idx(zones, id) >= 0 ==> zones[zone_idx(zones, id)].id == id,
        zone_idx(zones, id) >= 0 ==> forall|j: int| 0 <= j < zone_idx(zones, id) ==> zones[j].id != id,
        zone_idx(zones, id) == -1 ==> forall|j: int| 0 <= j < zones.len() ==> zones[j].id != id,
    decreases zones.len(),
{
    if zones.len() > 0 && zones[0].id != id {
        let tail = zones.subrange(1, zones.len() as int);
        lemma_zone_idx(tail, id);
        if zone_idx(tail, id) >= 0 {
            assert forall|j: int| 0 <= j < zone_idx(zones, id) implies zones[j].id != id by {
                if j > 0 {
                    assert(zones[j] == tail[j - 1]);
                }
            }
        } else {
            assert forall|j: int| 0 <= j < zones.len() implies zones[j].id != id by {
                if j > 0 {
                    assert(zones[j] == tail[j - 1]);
                }
            }
        }
    }
}

/// The sequence with every occurrence of `x` removed, order kept.
pub open spec fn remove_all(s: Seq<EntryId>, x: EntryId) -> Seq<EntryId>
    decreases s.len(),
{
    if s.len() <= 0 {
        Seq::empty()
    } else {
        remove_all(s.drop_last(), x) + (if s.last() == x {
            Seq::<EntryId>::empty()
        } else {
            seq![s.last()]
        })
    }
}

/// Moving up to `n` cards from the deck tail to the hand.
pub open spec fn apply_draw_state(gs: GameStateModel, n: usize) -> GameStateModel {
    let k: int = if n <= gs.desk.len() {
        n as int
    } else {
        gs.desk.len() as int
    };
    GameStateModel {
        desk: gs.desk.subrange(0, gs.desk.len() - k),
        hand: gs.hand + gs.desk.subrange(gs.desk.len() - k, gs.desk.len() as int).reverse(),
        ..gs
    }
}

/// Damage against one player: ordinary loss above the threshold, point-pool
/// absorption down to 1 hp when the pool can cover the overflow, collapse to
/// zero otherwise.
pub open spec fn apply_damage_state(gs: GameStateModel, n: usize) -> GameStateModel {
    if gs.hp > n {
        GameStateModel { hp: (gs.hp - n) as usize, ..gs }
    } else if gs.real_point + gs.hp > n {
        GameStateModel { hp: 1, real_point: (gs.real_point - (n - gs.hp + 1)) as usize, ..gs }
    } else {
        GameStateModel { hp: 0, real_point: 0, ..gs }
    }
}

/// Banked points grow by `n`; an increment that cannot be represented is
/// refused whole, so the pool never wraps.
pub open spec fn apply_add_point_state(gs: GameStateModel, n: usize) -> GameStateModel {
    if gs.real_point + n <= usize::MAX {
        GameStateModel { real_point: (gs.real_point + n) as usize, ..gs }
    } else {
        gs
    }
}

/// Spending is guarded: a pool shorter than `n` is left untouched.
pub open spec fn apply_use_point_state(gs: GameStateModel, n: usize) -> GameStateModel {
    if gs.real_point >= n {
        GameStateModel { real_point: (gs.real_point - n) as usize, ..gs }
    } else {
        gs
    }
}

/// Placing a card: it leaves the cost area (wherever it occurs there) and is
/// appended to every slot carrying the named id. A reference no slot
/// resolves returns the card to the hand instead: a placement never loses a
/// card.
pub open spec fn apply_set_state(gs: GameStateModel, card_id: EntryId, zone_id: EntryId) -> GameStateModel {
    if set_flag(gs, zone_id) {
        GameStateModel {
            cost: remove_all(gs.cost, card_id),
            zone: Seq::new(
                gs.zone.len(),
                |i: int|
                    if gs.zone[i].id == zone_id {
                        ZoneModel { cards: gs.zone[i].cards.push(card_id), ..gs.zone[i] }
                    } else {
                        gs.zone[i]
                    },
            ),
            ..gs
        }
    } else {
        GameStateModel {
            cost: remove_all(gs.cost, card_id),
            hand: gs.hand.push(card_id),
            ..gs
        }
    }
}

/// Whether the placement's zone reference resolves to a slot of this side,
/// which is what makes the placement land there and fire the on-set window.
pub open spec fn set_flag(gs: GameStateModel, zone_id: EntryId) -> bool {
    exists|i: int| 0 <= i < gs.zone.len() && gs.zone[i].id == zone_id
}

/// The payloads of a definition's effects tagged for the on-set window, in
/// declaration order.
pub open spec fn onset_list(effects: Seq<EffectModel>) -> Seq<EffTree>
    decreases effects.len(),
{
    if effects.len() <= 0 {
        Seq::empty()
    } else {
        onset_list(effects.drop_last()) + (if effects.last().windows_tag == WindowsTag::OnSet {
            seq![effects.last().do_effect]
        } else {
            Seq::<EffTree>::empty()
        })
    }
}

/// Emptying the named slot on one side into that side's graveyard.
pub open spec fn destroy_side(s: GameModel, p: int, zone_id: EntryId) -> GameModel {
    let gs = s.game_states[p];
    let j = zone_idx(gs.zone, zone_id);
    if j < 0 {
        s
    } else {
        let gs2 = GameStateModel {
            zone: gs.zone.update(j, ZoneModel { cards: Seq::empty(), ..gs.zone[j] }),
            grave: gs.grave + gs.zone[j].cards,
            ..gs
        };
        GameModel { game_states: s.game_states.update(p, gs2), ..s }
    }
}

/// A per-turn attack counter raised by `n`; an increment that cannot be
/// represented is refused whole.
pub open spec fn counter_up(cards: Seq<CardModel>, id: EntryId, n: usize) -> Seq<CardModel> {
    let j = card_idx(cards, id);
    if j < 0 {
        cards
    } else {
        let c = cards[j];
        cards.update(
            j,
            CardModel {
                attack_counter: if c.attack_counter + n <= usize::MAX {
                    (c.attack_counter + n) as usize
                } else {
                    c.attack_counter
                },
                ..c
            },
        )
    }
}

/// A per-turn attack counter lowered by `n`, floored at zero.
pub open spec fn counter_down(cards: Seq<CardModel>, id: EntryId, n: usize) -> Seq<CardModel> {
    let j = card_idx(cards, id);
    if j < 0 {
        cards
    } else {
        let c = cards[j];
        cards.update(
            j,
            CardModel {
                attack_counter: if c.attack_counter >= n {
                    (c.attack_counter - n) as usize
                } else {
                    0
                },
                ..c
            },
        )
    }
}

/// The per-turn attack counter of the first registry entry with this id reset
/// to zero; a missing id changes nothing.
pub open spec fn reset_counter(cards: Seq<CardModel>, id: EntryId) -> Seq<CardModel> {
    let j = card_idx(cards, id);
    if j < 0 {
        cards
    } else {
        cards.update(j, CardModel { attack_counter: 0, ..cards[j] })
    }
}

/// Counters of all the listed entries reset, in order.
pub open spec fn reset_counters_list(cards: Seq<CardModel>, ids: Seq<EntryId>) -> Seq<CardModel>
    decreases ids.len(),
{
    if ids.len() <= 0 {
        cards
    } else {
        reset_counter(reset_counters_list(cards, ids.drop_last()), ids.last())
    }
}

/// The turn-start refresh: every card sitting in a front-row slot of this
/// board has its per-turn attack counter reset.
pub open spec fn flash_zones(cards: Seq<CardModel>, zones: Seq<ZoneModel>) -> Seq<CardModel>
    decreases zones.len(),
{
    if zones.len() <= 0 {
        cards
    } else {
        let c = flash_zones(cards, zones.drop_last());
        if zones.last().front {
            reset_counters_list(c, zones.last().cards)
        } else {
            c
        }
    }
}

/// One elementary action applied to the match state, exactly as the effect
/// processor resolves it.
pub open spec fn apply_action(
    s: GameModel,
    source: Targeting,
    targeting: Targeting,
    action: Action,
) -> GameModel {
    match action {
        Action::Nothing => s,
        Action::Draw(n) => match target_player(s, targeting) {
            Option::Some(p) => GameModel {
                game_states: s.game_states.update(
                    p as int,
                    apply_draw_state(s.game_states[p as int], n),
                ),
                ..s
            },
            Option::None => s,
        },
        Action::SetCard { card_id, zone_id } => {
            let p = s.current_player as int;
            let gs = s.game_states[p];
            let s2 = GameModel {
                game_states: s.game_states.update(p, apply_set_state(gs, card_id, zone_id)),
                ..s
            };
            if set_flag(gs, zone_id) {
                let j = card_idx(s.cards, card_id);
                if j >= 0 {
                    GameModel {
                        effects: onset_list(s.cards[j].info.effects).reverse() + s2.effects,
                        ..s2
                    }
                } else {
                    s2
                }
            } else {
                s2
            }
        },
        Action::Damage(n) => match target_player(s, targeting) {
            Option::Some(p) => GameModel {
                game_states: s.game_states.update(
                    p as int,
                    apply_damage_state(s.game_states[p as int], n),
                ),
                ..s
            },
            Option::None => s,
        },
        Action::AddRealPoint(n) => match target_player(s, targeting) {
            Option::Some(p) => GameModel {
                game_states: s.game_states.update(
                    p as int,
                    apply_add_point_state(s.game_states[p as int], n),
                ),
                ..s
            },
            Option::None => s,
        },
        Action::UseRealPoint(n) => match target_player(s, targeting) {
            Option::Some(p) => GameModel {
                game_states: s.game_states.update(
                    p as int,
                    apply_use_point_state(s.game_states[p as int], n),
                ),
                ..s
            },
            Option::None => s,
        },
        Action::FightDestroy { zone_id } => {
            let s1 = destroy_side(s, s.current_player as int, zone_id);
            destroy_side(s1, spec_next_player(s) as int, zone_id)
        },
        Action::AttackCounterUp(card_id, n) => GameModel {
            cards: counter_up(s.cards, card_id, n),
            ..s
        },
        Action::AttackCountDown(card_id, n) => GameModel {
            cards: counter_down(s.cards, card_id, n),
            ..s
        },
    }
}

/// One step of the effect processor: pop the front entry and resolve it. An
/// `And` bundle is appended to the back; an `Or` bundle has no driving choice
/// protocol yet and resolves to nothing. A state with an empty queue is a
/// fixpoint.
pub open spec fn step(s: GameModel) -> GameModel {
    if s.effects.len() == 0 {
        s
    } else {
        let e = s.effects[0];
        let s1 = GameModel { effects: s.effects.subrange(1, s.effects.len() as int), ..s };
        match e {
            EffTree::Nothing => s1,
            EffTree::Action { source, targeting, action } => apply_action(
                s1,
                source,
                targeting,
                action,
            ),
            EffTree::And(es) => GameModel { effects: s1.effects + es, ..s1 },
            EffTree::Or(es) => s1,
        }
    }
}

/// `n` steps of the effect processor.
pub open spec fn run_steps(s: GameModel, n: nat) -> GameModel
    decreases n,
{
    if n == 0 {
        s
    } else {
        run_steps(step(s), (n - 1) as nat)
    }
}

/// Nothing is pending: the state an external actor is allowed to observe.
pub open spec fn quiescent(s: GameModel) -> bool {
    s.effects.len() == 0
}

pub proof fn lemma_run_steps_succ(s: GameModel, n: nat)
    ensures
        run_steps(s, n + 1) == step(run_steps(s, n)),
    decreases n,
{
    if n == 0 {
        assert(run_steps(s, n + 1) == run_steps(step(s), n));
        assert(run_steps(step(s), n) == step(s));
        assert(run_steps(s, n) == s);
    } else {
        lemma_run_steps_succ(step(s), (n - 1) as nat);
        assert(run_steps(s, n + 1) == run_steps(step(s), n));
        assert(run_steps(s, n) == run_steps(step(s), (n - 1) as nat));
    }
}

/// A quiescent state is a fixpoint of the processor, so any two runs that both
/// end quiescent end in the same state.
pub proof fn lemma_quiescent_fixpoint(s: GameModel, n: nat)
    requires
        quiescent(s),
    ensures
        run_steps(s, n) == s,
    decreases n,
{
    if n > 0 {
        lemma_quiescent_fixpoint(s, (n - 1) as nat);
        lemma_run_steps_succ(s, (n - 1) as nat);
    }
}


/// Replacing one side with a side whose board carries the same slot ids keeps
/// the match well-formed.
pub proof fn lemma_wf_update_state(s: GameModel, p: int, gs2: GameStateModel)
    requires
        wf_model(s),
        0 <= p < s.game_states.len(),
        gs2.zone.len() == s.game_states[p].zone.len(),
        forall|i: int| 0 <= i < gs2.zone.len() ==> gs2.zone[i].id == s.game_states[p].zone[i].id,
    ensures
        wf_model(GameModel { game_states: s.game_states.update(p, gs2), ..s }),
{
    let s2 = GameModel { game_states: s.game_states.update(p, gs2), ..s };
    assert forall|q: int, i: int, j: int|
        0 <= q < s2.game_states.len() && 0 <= i < j < s2.game_states[q].zone.len()
            implies s2.game_states[q].zone[i].id != s2.game_states[q].zone[j].id by {
        if q == p {
            assert(gs2.zone[i].id == s.game_states[p].zone[i].id);
            assert(gs2.zone[j].id == s.game_states[p].zone[j].id);
        } else {
            assert(s2.game_states[q] == s.game_states[q]);
        }
    }
}

/// Replacing the registry with one that carries the same entry ids keeps the
/// match well-formed.
pub proof fn lemma_wf_update_cards(s: GameModel, cards2: Seq<CardModel>)
    requires
        wf_model(s),
        cards2.len() == s.cards.len(),
        forall|i: int| 0 <= i < cards2.len() ==> cards2[i].entry_id == s.cards[i].entry_id,
    ensures
        wf_model(GameModel { cards: cards2, ..s }),
{
    let s2 = GameModel { cards: cards2, ..s };
    assert forall|i: int, j: int| 0 <= i < j < s2.cards.len() implies s2.cards[i].entry_id
        != s2.cards[j].entry_id by {
        assert(cards2[i].entry_id == s.cards[i].entry_id);
        assert(cards2[j].entry_id == s.cards[j].entry_id);
    }
}

/// `zone_idx` looks at slot ids alone.
pub proof fn lemma_zone_idx_ids(zones1: Seq<ZoneModel>, zones2: Seq<ZoneModel>, id: EntryId)
    requires
        zones1.len() == zones2.len(),
        forall|i: int| 0 <= i < zones1.len() ==> zones1[i].id == zones2[i].id,
    ensures
        zone_idx(zones1, id) == zone_idx(zones2, id),
    decreases zones1.len(),
{
    if zones1.len() > 0 && zones1[0].id != id {
        let t1 = zones1.subrange(1, zones1.len() as int);
        let t2 = zones2.subrange(1, zones2.len() as int);
        assert forall|i: int| 0 <= i < t1.len() implies t1[i].id == t2[i].id by {
            assert(t1[i] == zones1[i + 1]);
            assert(t2[i] == zones2[i + 1]);
        }
        lemma_zone_idx_ids(t1, t2, id);
    }
}
} // verus!
