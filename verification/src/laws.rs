//! The engine's general laws, stated and proved over the model semantics:
//! the phase cycle, affordability monotonicity, damage absorption, the spend
//! guard, the resolution order of the effect queue, the combat tie, and the
//! conservation of entry ids across effect resolution and plays.

use crate::card::CardModel;
use crate::common::EntryId;
use crate::effect::{Action, EffTree};
use crate::game::{act_eff, spec_can_afford, spec_deal_fight_zone, spec_next_phase, GamePhase};
use crate::effect::EffectModel;
use crate::model::{
    apply_damage_state, apply_set_state, apply_use_point_state, card_idx, destroy_side,
    lemma_wf_update_cards, lemma_wf_update_state, lemma_zone_idx, lemma_zone_idx_ids, onset_list,
    quiescent, remove_all, run_steps, set_flag, spec_next_player, step, wf_model, zone_idx,
    GameModel, GameStateModel, ZoneModel,
};
use crate::choice_res::ChoiceRes;
use crate::game::{
    retain_not_in, spec_leave_hand, spec_pay_cost, spec_play_staged, spec_set_rollback, spec_stage,
};
use crate::player_actions::PlayerAction;
use crate::targeting::Targeting;
use vstd::multiset::Multiset;
use vstd::prelude::*;

verus! {

/// Phase order: from `Start`, seven successive transitions walk the whole
/// cycle back to `Start`, and the turn owner advances exactly once, at the
/// `End` to `Start` boundary only.
pub proof fn lemma_phase_cycle(s: GameModel)
    requires
        wf_model(s),
        s.current_phase == GamePhase::Start,
    ensures
        ({
            let s1 = spec_next_phase(s);
            let s2 = spec_next_phase(s1);
            let s3 = spec_next_phase(s2);
            let s4 = spec_next_phase(s3);
            let s5 = spec_next_phase(s4);
            let s6 = spec_next_phase(s5);
            let s7 = spec_next_phase(s6);
            &&& s1.current_phase == GamePhase::Draw
            &&& s2.current_phase == GamePhase::Reuse
            &&& s3.current_phase == GamePhase::Main
            &&& s4.current_phase == GamePhase::Fight
            &&& s5.current_phase == GamePhase::Main2
            &&& s6.current_phase == GamePhase::End
            &&& s7.current_phase == GamePhase::Start
            &&& s1.current_player == s.current_player
            &&& s2.current_player == s.current_player
            &&& s3.current_player == s.current_player
            &&& s4.current_player == s.current_player
            &&& s5.current_player == s.current_player
            &&& s6.current_player == s.current_player
            &&& s7.current_player == spec_next_player(s)
        }),
{
}

/// Affordability is monotonically non-decreasing in hand size, remaining
/// cost-area capacity (so non-increasing in used slots), and the point pool.
pub proof fn lemma_can_afford_monotonic(
    hand1: int,
    hand2: int,
    cost_len1: int,
    cost_len2: int,
    pool1: int,
    pool2: int,
    cost: int,
)
    requires
        hand1 <= hand2,
        cost_len2 <= cost_len1,
        pool1 <= pool2,
        0 <= cost_len2,
        spec_can_afford(hand1, cost_len1, pool1, cost),
    ensures
        spec_can_afford(hand2, cost_len2, pool2, cost),
{
}

/// Damage absorption: damage at or past the hit points is absorbed by the
/// point pool down to exactly 1 hp when the pool covers the overflow, and
/// collapses both to zero when it does not.
pub proof fn lemma_damage_absorption(gs: GameStateModel, n: usize)
    ensures
        gs.hp > n ==> apply_damage_state(gs, n) == (GameStateModel {
            hp: (gs.hp - n) as usize,
            ..gs
        }),
        gs.hp <= n && gs.real_point + gs.hp > n ==> apply_damage_state(gs, n) == (GameStateModel {
            hp: 1,
            real_point: (gs.real_point - (n - gs.hp + 1)) as usize,
            ..gs
        }),
        gs.hp <= n && gs.real_point + gs.hp <= n ==> apply_damage_state(gs, n) == (GameStateModel {
            hp: 0,
            real_point: 0,
            ..gs
        }),
{
}

/// Point spend guard: spending more than the pool holds changes nothing.
pub proof fn lemma_use_point_guard(gs: GameStateModel, n: usize)
    requires
        gs.real_point < n,
    ensures
        apply_use_point_state(gs, n) == gs,
{
}

/// Resolution order, ordinary pushes: with E1 queued first and E2 pushed
/// after it, E2 stands at the front and resolves first; one step later only
/// E1 remains. Stated for entries that do not themselves feed the queue.
pub proof fn lemma_lifo_order(
    s: GameModel,
    e1: EffTree,
    src: Targeting,
    tgt: Targeting,
    a: Action,
)
    requires
        wf_model(s),
        s.effects == seq![act_eff(src, tgt, a), e1],
        !(a is SetCard),
    ensures
        step(s).effects == seq![e1],
{
    assert(s.effects[0] == act_eff(src, tgt, a));
    assert(s.effects.subrange(1, 2) =~= seq![e1]);
    match a {
        Action::SetCard { .. } => {},
        _ => {},
    }
}

/// Resolution order, composite bundles: an `And` bundle goes to the back, so
/// with E1 still queued behind it, one step leaves E1 at the front, then E3,
/// then E4 — everything already pending resolves before the bundle's
/// children.
pub proof fn lemma_and_order(s: GameModel, e1: EffTree, e3: EffTree, e4: EffTree)
    requires
        s.effects == seq![EffTree::And(seq![e3, e4]), e1],
    ensures
        step(s).effects == seq![e1, e3, e4],
{
    assert(s.effects[0] == EffTree::And(seq![e3, e4]));
    assert(s.effects.subrange(1, 2) =~= seq![e1]);
    assert(step(s).effects =~= seq![e1, e3, e4]);
}


/// Combat tie: when the first cards of the attacking and the attacked slot
/// carry equal attack values, resolving the staged fight destroys both slots
/// into their owners' graveyards, banks the attacking player one point, and
/// leaves every attack counter untouched — the tie branch advances none.
pub proof fn lemma_combat_tie(s: GameModel, my_zone_id: EntryId, target_zone_id: EntryId)
    requires
        wf_model(s),
        quiescent(s),
        s.players.len() >= 2,
        ({
            let cp = s.current_player as int;
            let nx = spec_next_player(s) as int;
            let my = s.game_states[cp].zone;
            let other = s.game_states[nx].zone;
            let j = zone_idx(my, my_zone_id);
            let k = zone_idx(other, target_zone_id);
            &&& j >= 0
            &&& k >= 0
            &&& my[j].front
            &&& other[k].front
            &&& my[j].cards.len() > 0
            &&& other[k].cards.len() > 0
            &&& card_idx(s.cards, my[j].cards[0]) >= 0
            &&& card_idx(s.cards, other[k].cards[0]) >= 0
            &&& s.cards[card_idx(s.cards, my[j].cards[0])].info.ack == s.cards[card_idx(
                s.cards,
                other[k].cards[0],
            )].info.ack
            &&& zone_idx(other, my_zone_id) == -1
            &&& zone_idx(my, target_zone_id) == -1
            &&& s.game_states[cp].real_point < usize::MAX
        }),
    ensures
        ({
            let cp = s.current_player as int;
            let nx = spec_next_player(s) as int;
            let my = s.game_states[cp].zone;
            let other = s.game_states[nx].zone;
            let j = zone_idx(my, my_zone_id);
            let k = zone_idx(other, target_zone_id);
            let t = run_steps(spec_deal_fight_zone(s, my_zone_id, target_zone_id), 3);
            &&& quiescent(t)
            &&& t.cards == s.cards
            &&& t.game_states[cp].real_point == s.game_states[cp].real_point + 1
            &&& t.game_states[cp].zone == my.update(
                j,
                ZoneModel { cards: Seq::empty(), ..my[j] },
            )
            &&& t.game_states[cp].grave == s.game_states[cp].grave + my[j].cards
            &&& t.game_states[nx].zone == other.update(
                k,
                ZoneModel { cards: Seq::empty(), ..other[k] },
            )
            &&& t.game_states[nx].grave == s.game_states[nx].grave + other[k].cards
            &&& t.game_states[cp].hand == s.game_states[cp].hand
            &&& t.game_states[cp].desk == s.game_states[cp].desk
            &&& t.game_states[cp].cost == s.game_states[cp].cost
            &&& t.game_states[cp].hp == s.game_states[cp].hp
            &&& t.game_states[nx].hand == s.game_states[nx].hand
            &&& t.game_states[nx].desk == s.game_states[nx].desk
            &&& t.game_states[nx].cost == s.game_states[nx].cost
            &&& t.game_states[nx].hp == s.game_states[nx].hp
            &&& t.game_states[nx].real_point == s.game_states[nx].real_point
        }),
{
    let cp = s.current_player as int;
    let nx = spec_next_player(s) as int;
    assert(nx != cp) by {
        let c = s.current_player as int;
        let l = s.players.len() as int;
        if c + 1 < l {
            vstd::arithmetic::div_mod::lemma_small_mod((c + 1) as nat, l as nat);
            assert((c + 1) % l == c + 1);
        } else {
            assert(c + 1 == l);
            vstd::arithmetic::div_mod::lemma_mod_self_0(l);
            assert((c + 1) % l == 0);
            assert(c > 0);
        }
    }
    let my = s.game_states[cp].zone;
    let other = s.game_states[nx].zone;
    let j = zone_idx(my, my_zone_id);
    let k = zone_idx(other, target_zone_id);
    lemma_zone_idx(my, my_zone_id);
    lemma_zone_idx(other, target_zone_id);
    let s0 = spec_deal_fight_zone(s, my_zone_id, target_zone_id);
    assert(s0.effects.len() == 3);
    // first step: the attacking player banks one point
    let s1 = step(s0);
    assert(s0.effects.subrange(1, 3) =~= seq![
        act_eff(
            Targeting::Nothing,
            Targeting::Nothing,
            Action::FightDestroy { zone_id: my_zone_id },
        ),
        act_eff(
            Targeting::Nothing,
            Targeting::Nothing,
            Action::FightDestroy { zone_id: target_zone_id },
        ),
    ]);
    assert(s1.game_states[cp].real_point == s.game_states[cp].real_point + 1);
    assert(s1.game_states[cp].zone == my);
    assert(s1.game_states[nx] == s.game_states[nx]);
    assert(s1.cards == s.cards);
    // second step: the attacking slot is emptied into its owner's graveyard
    let s2 = step(s1);
    assert(s1.effects.subrange(1, 2) =~= seq![
        act_eff(
            Targeting::Nothing,
            Targeting::Nothing,
            Action::FightDestroy { zone_id: target_zone_id },
        ),
    ]);
    assert(spec_next_player(s1) == nx) by {
        assert(s1.players.len() == s.players.len());
        assert(s1.current_player == s.current_player);
    }
    let s1a = crate::model::destroy_side(
        GameModel { effects: s1.effects.subrange(1, 2), ..s1 },
        cp,
        my_zone_id,
    );
    assert(s1a.game_states[cp].zone == my.update(j, ZoneModel { cards: Seq::empty(), ..my[j] }));
    assert(s1a.game_states[cp].grave == s.game_states[cp].grave + my[j].cards);
    assert(s1a.game_states[nx] == s.game_states[nx]);
    assert(zone_idx(s1a.game_states[nx].zone, my_zone_id) == -1);
    assert(s2 == crate::model::destroy_side(s1a, nx, my_zone_id));
    assert(s2 == s1a);
    // third step: the attacked slot is emptied into its owner's graveyard
    let s3 = step(s2);
    assert(s2.effects.subrange(1, 1) =~= Seq::<EffTree>::empty());
    let my2 = s2.game_states[cp].zone;
    assert(my2.len() == my.len());
    assert(forall|i: int| 0 <= i < my.len() ==> my2[i].id == my[i].id);
    lemma_zone_idx_ids(my2, my, target_zone_id);
    assert(zone_idx(my2, target_zone_id) == -1);
    let s2a = crate::model::destroy_side(
        GameModel { effects: s2.effects.subrange(1, 1), ..s2 },
        cp,
        target_zone_id,
    );
    assert(s2a == (GameModel { effects: s2.effects.subrange(1, 1), ..s2 }));
    assert(spec_next_player(s2) == nx);
    assert(s3 == crate::model::destroy_side(s2a, nx, target_zone_id));
    assert(s3.game_states[nx].zone == other.update(
        k,
        ZoneModel { cards: Seq::empty(), ..other[k] },
    ));
    assert(s3.game_states[nx].grave == s.game_states[nx].grave + other[k].cards);
    assert(run_steps(s0, 3) == s3) by {
        assert(run_steps(s0, 3) == run_steps(s1, 2));
        assert(run_steps(s1, 2) == run_steps(s2, 1));
        assert(run_steps(s2, 1) == run_steps(s3, 0));
    }
    assert(quiescent(s3));
}

/// Every entry id sitting in a board's slots.
pub open spec fn zones_ids_ms(zones: Seq<ZoneModel>) -> Multiset<EntryId>
    decreases zones.len(),
{
    if zones.len() <= 0 {
        Multiset::empty()
    } else {
        zones_ids_ms(zones.drop_last()).add(zones.last().cards.to_multiset())
    }
}

/// Every entry id a side holds, across deck, hand, cost area, graveyard and
/// board slots.
pub open spec fn state_ids(gs: GameStateModel) -> Multiset<EntryId> {
    gs.desk.to_multiset().add(gs.hand.to_multiset()).add(gs.cost.to_multiset()).add(
        gs.grave.to_multiset(),
    ).add(zones_ids_ms(gs.zone))
}

/// The cards a queue entry is still carrying towards a board slot: the
/// argument of each placement at a position that will actually resolve (the
/// front, or inside an `And` bundle).
pub open spec fn tree_pending(e: EffTree) -> Multiset<EntryId>
    decreases e,
{
    match e {
        EffTree::Action { source, targeting, action } => match action {
            Action::SetCard { card_id, zone_id } => Multiset::empty().insert(card_id),
            _ => Multiset::empty(),
        },
        EffTree::And(es) => seq_pending(es),
        _ => Multiset::empty(),
    }
}

pub open spec fn seq_pending(s: Seq<EffTree>) -> Multiset<EntryId>
    decreases s,
{
    if s.len() <= 0 {
        Multiset::empty()
    } else {
        tree_pending(s[0]).add(seq_pending(s.subrange(1, s.len() as int)))
    }
}

/// An effect tree with no placement anywhere that will resolve.
pub open spec fn set_free(e: EffTree) -> bool
    decreases e,
{
    match e {
        EffTree::Action { source, targeting, action } => !(action is SetCard),
        EffTree::And(es) => seq_set_free(es),
        _ => true,
    }
}

pub open spec fn seq_set_free(s: Seq<EffTree>) -> bool
    decreases s,
{
    if s.len() <= 0 {
        true
    } else {
        set_free(s[0]) && seq_set_free(s.subrange(1, s.len() as int))
    }
}

/// A queue entry whose placements are sound against this side: the placed
/// card is not sitting in the cost area. The slot reference may dangle; a
/// placement then falls back to the hand and still loses nothing.
pub open spec fn sets_ok(e: EffTree, gs: GameStateModel) -> bool
    decreases e,
{
    match e {
        EffTree::Action { source, targeting, action } => match action {
            Action::SetCard { card_id, zone_id } => gs.cost.to_multiset().count(card_id) == 0,
            _ => true,
        },
        EffTree::And(es) => seq_sets_ok(es, gs),
        _ => true,
    }
}

pub open spec fn seq_sets_ok(s: Seq<EffTree>, gs: GameStateModel) -> bool
    decreases s,
{
    if s.len() <= 0 {
        true
    } else {
        sets_ok(s[0], gs) && seq_sets_ok(s.subrange(1, s.len() as int), gs)
    }
}

/// A catalog whose declared reactions place nothing: what the on-set window
/// pushes can then never create or drop a card. The only reaction the
/// authoring surface produces today is a draw, which satisfies this.
pub open spec fn registry_quiet(cards: Seq<CardModel>) -> bool {
    forall|j: int, k: int|
        0 <= j < cards.len() && 0 <= k < cards[j].info.effects.len() ==> set_free(
            #[trigger] cards[j].info.effects[k].do_effect,
        )
}

/// Everything conservation needs of a state: well-formedness, sound pending
/// placements against the turn owner's side, and a quiet catalog.
pub open spec fn conserving(s: GameModel) -> bool {
    &&& wf_model(s)
    &&& seq_sets_ok(s.effects, s.game_states[s.current_player as int])
    &&& registry_quiet(s.cards)
}

/// Every entry id a player owns, counting cards in flight towards the turn
/// owner's board with the turn owner.
pub open spec fn player_ids(s: GameModel, p: int) -> Multiset<EntryId> {
    if p == s.current_player as int {
        state_ids(s.game_states[p]).add(seq_pending(s.effects))
    } else {
        state_ids(s.game_states[p])
    }
}

pub proof fn lemma_seq_pending_concat(a: Seq<EffTree>, b: Seq<EffTree>)
    ensures
        seq_pending(a + b) == seq_pending(a).add(seq_pending(b)),
    decreases a.len(),
{
    broadcast use vstd::multiset::group_multiset_axioms;

    if a.len() == 0 {
        assert(a + b =~= b);
        assert(seq_pending(a).add(seq_pending(b)) =~= seq_pending(b));
    } else {
        let t = a.subrange(1, a.len() as int);
        lemma_seq_pending_concat(t, b);
        assert((a + b).subrange(1, (a + b).len() as int) =~= t + b);
        assert((a + b)[0] == a[0]);
        assert(seq_pending(a + b) =~= seq_pending(a).add(seq_pending(b)));
    }
}

pub proof fn lemma_seq_sets_ok_concat(a: Seq<EffTree>, b: Seq<EffTree>, gs: GameStateModel)
    ensures
        seq_sets_ok(a + b, gs) == (seq_sets_ok(a, gs) && seq_sets_ok(b, gs)),
    decreases a.len(),
{
    if a.len() == 0 {
        assert(a + b =~= b);
    } else {
        let t = a.subrange(1, a.len() as int);
        lemma_seq_sets_ok_concat(t, b, gs);
        assert((a + b).subrange(1, (a + b).len() as int) =~= t + b);
        assert((a + b)[0] == a[0]);
    }
}

/// A placement-free tree carries nothing and is sound against any side.
pub proof fn lemma_set_free_tree(e: EffTree, gs: GameStateModel)
    requires
        set_free(e),
    ensures
        tree_pending(e) == Multiset::<EntryId>::empty(),
        sets_ok(e, gs),
    decreases e,
{
    broadcast use vstd::multiset::group_multiset_axioms;

    match e {
        EffTree::And(es) => {
            lemma_set_free_seq(es, gs);
        },
        _ => {},
    }
}

pub proof fn lemma_set_free_seq(s: Seq<EffTree>, gs: GameStateModel)
    requires
        seq_set_free(s),
    ensures
        seq_pending(s) == Multiset::<EntryId>::empty(),
        seq_sets_ok(s, gs),
    decreases s,
{
    broadcast use vstd::multiset::group_multiset_axioms;

    if s.len() > 0 {
        lemma_set_free_tree(s[0], gs);
        lemma_set_free_seq(s.subrange(1, s.len() as int), gs);
        assert(seq_pending(s) =~= Multiset::<EntryId>::empty());
    }
}

/// A sequence of placement-free trees, given elementwise.
pub proof fn lemma_set_free_seq_elementwise(s: Seq<EffTree>)
    requires
        forall|i: int| 0 <= i < s.len() ==> set_free(#[trigger] s[i]),
    ensures
        seq_set_free(s),
    decreases s.len(),
{
    if s.len() > 0 {
        let t = s.subrange(1, s.len() as int);
        assert forall|i: int| 0 <= i < t.len() implies set_free(#[trigger] t[i]) by {
            assert(t[i] == s[i + 1]);
        }
        lemma_set_free_seq_elementwise(t);
    }
}

/// Replacing one slot swaps its cards in the board's id count.
pub proof fn lemma_zones_ids_update(zones: Seq<ZoneModel>, j: int, z2: ZoneModel)
    requires
        0 <= j < zones.len(),
    ensures
        zones_ids_ms(zones.update(j, z2)).add(zones[j].cards.to_multiset()) == zones_ids_ms(
            zones,
        ).add(z2.cards.to_multiset()),
    decreases zones.len(),
{
    broadcast use vstd::multiset::group_multiset_axioms;

    let upd = zones.update(j, z2);
    if j == zones.len() - 1 {
        assert(upd.drop_last() =~= zones.drop_last());
        assert(upd.last() == z2);
        assert(zones.last() == zones[j]);
        assert(zones_ids_ms(upd).add(zones[j].cards.to_multiset()) =~= zones_ids_ms(zones).add(
            z2.cards.to_multiset(),
        ));
    } else {
        assert(upd.drop_last() =~= zones.drop_last().update(j, z2));
        assert(upd.last() == zones.last());
        lemma_zones_ids_update(zones.drop_last(), j, z2);
        assert(zones.drop_last()[j] == zones[j]);
        assert(zones_ids_ms(upd) == zones_ids_ms(zones.drop_last().update(j, z2)).add(
            zones.last().cards.to_multiset(),
        ));
        assert(zones_ids_ms(zones) == zones_ids_ms(zones.drop_last()).add(
            zones.last().cards.to_multiset(),
        ));
        assert forall|x: EntryId|
            zones_ids_ms(upd).add(zones[j].cards.to_multiset()).count(x) == zones_ids_ms(
                zones,
            ).add(z2.cards.to_multiset()).count(x) by {
            assert(zones_ids_ms(zones.drop_last().update(j, z2)).count(x)
                + zones[j].cards.to_multiset().count(x) == zones_ids_ms(
                zones.drop_last(),
            ).count(x) + z2.cards.to_multiset().count(x)) by {
                assert(zones_ids_ms(zones.drop_last().update(j, z2)).add(
                    zones[j].cards.to_multiset(),
                ).count(x) == zones_ids_ms(zones.drop_last()).add(
                    z2.cards.to_multiset(),
                ).count(x));
            }
        }
        assert(zones_ids_ms(upd).add(zones[j].cards.to_multiset()) =~= zones_ids_ms(zones).add(
            z2.cards.to_multiset(),
        ));
    }
}

/// Dropping unused cards from the deck tail into the hand moves ids without
/// creating or losing any.
pub proof fn lemma_draw_state_ids(gs: GameStateModel, n: usize)
    ensures
        state_ids(crate::model::apply_draw_state(gs, n)) == state_ids(gs),
{
    broadcast use vstd::multiset::group_multiset_axioms;
    broadcast use vstd::seq_lib::group_to_multiset_ensures;

    let k: int = if n <= gs.desk.len() {
        n as int
    } else {
        gs.desk.len() as int
    };
    let desk2 = gs.desk.subrange(0, gs.desk.len() - k);
    let dropped = gs.desk.subrange(gs.desk.len() - k, gs.desk.len() as int);
    let hand2 = gs.hand + dropped.reverse();
    vstd::seq_lib::lemma_multiset_commutative(gs.hand, dropped.reverse());
    crate::game::lemma_reverse_multiset(dropped);
    vstd::seq_lib::lemma_multiset_commutative(desk2, dropped);
    assert(desk2 + dropped =~= gs.desk);
    assert(state_ids(crate::model::apply_draw_state(gs, n)) =~= state_ids(gs));
}

/// A cost area that does not hold the card is untouched by clearing it.
pub proof fn lemma_remove_all_absent(s: Seq<EntryId>, x: EntryId)
    requires
        s.to_multiset().count(x) == 0,
    ensures
        crate::model::remove_all(s, x) == s,
    decreases s.len(),
{
    broadcast use vstd::multiset::group_multiset_axioms;
    broadcast use vstd::seq_lib::group_to_multiset_ensures;

    if s.len() > 0 {
        assert(s =~= s.drop_last().push(s.last()));
        assert(s.to_multiset() == s.drop_last().push(s.last()).to_multiset());
        assert(s.drop_last().push(s.last()).to_multiset() =~= s.drop_last().to_multiset().insert(
            s.last(),
        ));
        assert(s.drop_last().to_multiset().count(x) == 0);
        assert(s.last() != x) by {
            if s.last() == x {
                assert(s.to_multiset().count(x) >= 1);
            }
        }
        lemma_remove_all_absent(s.drop_last(), x);
        assert(crate::model::remove_all(s, x) =~= s);
    } else {
        assert(crate::model::remove_all(s, x) =~= s);
    }
}

/// Soundness of pending placements depends only on the cost area and the
/// slot ids.
pub proof fn lemma_sets_ok_same(s: Seq<EffTree>, gs1: GameStateModel, gs2: GameStateModel)
    requires
        gs1.cost == gs2.cost,
        gs1.zone.len() == gs2.zone.len(),
        forall|i: int| 0 <= i < gs1.zone.len() ==> gs1.zone[i].id == gs2.zone[i].id,
        seq_sets_ok(s, gs1),
    ensures
        seq_sets_ok(s, gs2),
    decreases s,
{
    if s.len() > 0 {
        lemma_tree_sets_ok_same(s[0], gs1, gs2);
        lemma_sets_ok_same(s.subrange(1, s.len() as int), gs1, gs2);
    }
}

pub proof fn lemma_tree_sets_ok_same(e: EffTree, gs1: GameStateModel, gs2: GameStateModel)
    requires
        gs1.cost == gs2.cost,
        gs1.zone.len() == gs2.zone.len(),
        forall|i: int| 0 <= i < gs1.zone.len() ==> gs1.zone[i].id == gs2.zone[i].id,
        sets_ok(e, gs1),
    ensures
        sets_ok(e, gs2),
    decreases e,
{
    match e {
        EffTree::Action { source, targeting, action } => {},
        EffTree::And(es) => {
            lemma_sets_ok_same(es, gs1, gs2);
        },
        _ => {},
    }
}

/// A sound placement adds exactly the placed card to the side's ids,
/// whether it lands in the named slot or falls back to the hand.
pub proof fn lemma_set_state_ids(gs: GameStateModel, card_id: EntryId, zone_id: EntryId)
    requires
        gs.cost.to_multiset().count(card_id) == 0,
        forall|i: int, j: int| 0 <= i < j < gs.zone.len() ==> gs.zone[i].id != gs.zone[j].id,
    ensures
        state_ids(apply_set_state(gs, card_id, zone_id)) == state_ids(gs).insert(card_id),
        apply_set_state(gs, card_id, zone_id).cost == gs.cost,
        apply_set_state(gs, card_id, zone_id).zone.len() == gs.zone.len(),
        forall|i: int|
            0 <= i < gs.zone.len() ==> #[trigger] apply_set_state(gs, card_id, zone_id).zone[i].id
                == gs.zone[i].id,
{
    broadcast use vstd::multiset::group_multiset_axioms;
    broadcast use vstd::seq_lib::group_to_multiset_ensures;

    let gs2 = apply_set_state(gs, card_id, zone_id);
    lemma_remove_all_absent(gs.cost, card_id);
    if set_flag(gs, zone_id) {
        let j = zone_idx(gs.zone, zone_id);
        lemma_zone_idx(gs.zone, zone_id);
        assert(j >= 0) by {
            if j == -1 {
                let w = choose|i: int| 0 <= i < gs.zone.len() && gs.zone[i].id == zone_id;
                assert(gs.zone[w].id != zone_id);
            }
        }
        let z2 = ZoneModel { cards: gs.zone[j].cards.push(card_id), ..gs.zone[j] };
        assert(gs2.zone =~= gs.zone.update(j, z2)) by {
            assert forall|i: int| 0 <= i < gs.zone.len() implies gs2.zone[i] == gs.zone.update(
                j,
                z2,
            )[i] by {
                if i != j {
                    assert(gs.zone[i].id != gs.zone[j].id);
                }
            }
        }
        lemma_zones_ids_update(gs.zone, j, z2);
        assert(z2.cards.to_multiset() =~= gs.zone[j].cards.to_multiset().insert(card_id));
        assert forall|x: EntryId| state_ids(gs2).count(x) == state_ids(gs).insert(card_id).count(
            x,
        ) by {
            assert(zones_ids_ms(gs.zone.update(j, z2)).add(gs.zone[j].cards.to_multiset()).count(x)
                == zones_ids_ms(gs.zone).add(z2.cards.to_multiset()).count(x));
        }
        assert(state_ids(gs2) =~= state_ids(gs).insert(card_id));
    } else {
        assert(gs2.hand =~= gs.hand.push(card_id));
        assert(gs.hand.push(card_id).to_multiset() =~= gs.hand.to_multiset().insert(card_id));
        assert(state_ids(gs2) =~= state_ids(gs).insert(card_id));
    }
}

/// Emptying a slot into the graveyard moves ids without creating or losing
/// any.
pub proof fn lemma_destroy_state_ids(s: GameModel, p: int, zone_id: EntryId)
    requires
        0 <= p < s.game_states.len(),
    ensures
        state_ids(destroy_side(s, p, zone_id).game_states[p]) == state_ids(s.game_states[p]),
        destroy_side(s, p, zone_id).game_states.len() == s.game_states.len(),
        forall|q: int|
            0 <= q < s.game_states.len() && q != p ==> destroy_side(s, p, zone_id).game_states[q]
                == s.game_states[q],
        destroy_side(s, p, zone_id).game_states[p].cost == s.game_states[p].cost,
        destroy_side(s, p, zone_id).game_states[p].zone.len() == s.game_states[p].zone.len(),
        forall|i: int|
            0 <= i < s.game_states[p].zone.len() ==> #[trigger] destroy_side(
                s,
                p,
                zone_id,
            ).game_states[p].zone[i].id == s.game_states[p].zone[i].id,
        destroy_side(s, p, zone_id) == (GameModel {
            game_states: destroy_side(s, p, zone_id).game_states,
            ..s
        }),
{
    broadcast use vstd::multiset::group_multiset_axioms;
    broadcast use vstd::seq_lib::group_to_multiset_ensures;

    let gs = s.game_states[p];
    let j = zone_idx(gs.zone, zone_id);
    lemma_zone_idx(gs.zone, zone_id);
    if j >= 0 {
        let z2 = ZoneModel { cards: Seq::empty(), ..gs.zone[j] };
        let gs2 = destroy_side(s, p, zone_id).game_states[p];
        lemma_zones_ids_update(gs.zone, j, z2);
        vstd::seq_lib::lemma_multiset_commutative(gs.grave, gs.zone[j].cards);
        assert(Seq::<EntryId>::empty().to_multiset() =~= Multiset::<EntryId>::empty());
        assert forall|x: EntryId| state_ids(gs2).count(x) == state_ids(gs).count(x) by {
            assert(zones_ids_ms(gs.zone.update(j, z2)).add(gs.zone[j].cards.to_multiset()).count(
                x,
            ) == zones_ids_ms(gs.zone).add(z2.cards.to_multiset()).count(x));
            assert((gs.grave + gs.zone[j].cards).to_multiset().count(x)
                == gs.grave.to_multiset().count(x) + gs.zone[j].cards.to_multiset().count(x));
        }
        assert(state_ids(gs2) =~= state_ids(gs));
    }
}

/// A quiet catalog's on-set reactions place nothing.
pub proof fn lemma_onset_set_free(effects: Seq<EffectModel>)
    requires
        forall|k: int| 0 <= k < effects.len() ==> set_free(#[trigger] effects[k].do_effect),
    ensures
        forall|i: int|
            0 <= i < onset_list(effects).len() ==> set_free(#[trigger] onset_list(effects)[i]),
    decreases effects.len(),
{
    if effects.len() > 0 {
        let pre = effects.drop_last();
        assert forall|k: int| 0 <= k < pre.len() implies set_free(#[trigger] pre[k].do_effect) by {
            assert(pre[k] == effects[k]);
        }
        lemma_onset_set_free(pre);
        assert forall|i: int|
            0 <= i < onset_list(effects).len() implies set_free(
            #[trigger] onset_list(effects)[i],
        ) by {
            if i < onset_list(pre).len() {
                assert(onset_list(effects)[i] == onset_list(pre)[i]);
            } else {
                assert(onset_list(effects)[i] == effects.last().do_effect);
            }
        }
    }
}

/// Conservation: one step of the effect processor neither creates nor drops
/// an entry id. For every player, the ids across deck, hand, cost area,
/// graveyard and board slots — counting cards in flight towards the turn
/// owner's board with the turn owner — are exactly what they were, and the
/// conditions carry to the next step.
#[verifier::rlimit(60)]
pub proof fn lemma_step_conserves(s: GameModel)
    requires
        conserving(s),
    ensures
        conserving(step(s)),
        step(s).current_player == s.current_player,
        step(s).game_states.len() == s.game_states.len(),
        forall|p: int|
            0 <= p < s.game_states.len() ==> #[trigger] player_ids(step(s), p) == player_ids(s, p),
{
    broadcast use vstd::multiset::group_multiset_axioms;
    broadcast use vstd::seq_lib::group_to_multiset_ensures;

    if s.effects.len() == 0 {
        assert(step(s) == s);
    } else {
        let cp = s.current_player as int;
        let e = s.effects[0];
        let rest = s.effects.subrange(1, s.effects.len() as int);
        let s1 = GameModel { effects: rest, ..s };
        let cur = s.game_states[cp];
        assert(seq_pending(s.effects) == tree_pending(e).add(seq_pending(rest)));
        assert(sets_ok(e, cur) && seq_sets_ok(rest, cur));
        match e {
            EffTree::Nothing => {
                assert(tree_pending(e) =~= Multiset::<EntryId>::empty());
                assert(step(s) == s1);
                assert forall|p: int|
                    0 <= p < s.game_states.len() implies #[trigger] player_ids(step(s), p)
                    == player_ids(s, p) by {
                    if p == cp {
                        assert(player_ids(s1, p) =~= player_ids(s, p));
                    }
                }
            },
            EffTree::Or(es) => {
                assert(tree_pending(e) =~= Multiset::<EntryId>::empty());
                assert(step(s) == s1);
                assert forall|p: int|
                    0 <= p < s.game_states.len() implies #[trigger] player_ids(step(s), p)
                    == player_ids(s, p) by {
                    if p == cp {
                        assert(player_ids(s1, p) =~= player_ids(s, p));
                    }
                }
            },
            EffTree::And(es) => {
                let s2 = GameModel { effects: rest + es, ..s1 };
                assert(step(s) == s2);
                lemma_seq_pending_concat(rest, es);
                lemma_seq_sets_ok_concat(rest, es, cur);
                assert forall|p: int|
                    0 <= p < s.game_states.len() implies #[trigger] player_ids(step(s), p)
                    == player_ids(s, p) by {
                    if p == cp {
                        assert(player_ids(s2, p) =~= player_ids(s, p));
                    }
                }
            },
            EffTree::Action { source, targeting, action } => {
                let s2 = crate::model::apply_action(s1, source, targeting, action);
                assert(step(s) == s2);
                match action {
                    Action::Nothing => {
                        assert(tree_pending(e) =~= Multiset::<EntryId>::empty());
                        assert(s2 == s1);
                        assert forall|p: int|
                            0 <= p < s.game_states.len() implies #[trigger] player_ids(step(s), p)
                            == player_ids(s, p) by {
                            if p == cp {
                                assert(player_ids(s1, p) =~= player_ids(s, p));
                            }
                        }
                    },
                    Action::Draw(n) => {
                        assert(tree_pending(e) =~= Multiset::<EntryId>::empty());
                        match crate::model::target_player(s1, targeting) {
                            Option::Some(p0) => {
                                let gs0 = s.game_states[p0 as int];
                                let gs2 = crate::model::apply_draw_state(gs0, n);
                                lemma_draw_state_ids(gs0, n);
                                assert(p0 < s.game_states.len());
                                lemma_wf_update_state(s1, p0 as int, gs2);
                                lemma_sets_ok_same(rest, cur, s2.game_states[cp]);
                                assert forall|p: int|
                                    0 <= p < s.game_states.len() implies #[trigger] player_ids(
                                    step(s),
                                    p,
                                ) == player_ids(s, p) by {
                                    assert(player_ids(s2, p) =~= player_ids(s, p));
                                }
                            },
                            Option::None => {
                                assert(s2 == s1);
                                assert forall|p: int|
                                    0 <= p < s.game_states.len() implies #[trigger] player_ids(
                                    step(s),
                                    p,
                                ) == player_ids(s, p) by {
                                    if p == cp {
                                        assert(player_ids(s1, p) =~= player_ids(s, p));
                                    }
                                }
                            },
                        }
                    },
                    Action::SetCard { card_id, zone_id } => {
                        assert(tree_pending(e) =~= Multiset::<EntryId>::empty().insert(card_id));
                        let gs2 = apply_set_state(cur, card_id, zone_id);
                        lemma_set_state_ids(cur, card_id, zone_id);
                        lemma_wf_update_state(s1, cp, gs2);
                        let s_mid = GameModel { game_states: s1.game_states.update(cp, gs2), ..s1 };
                        lemma_sets_ok_same(rest, cur, gs2);
                        if set_flag(cur, zone_id) {
                            let j = card_idx(s.cards, card_id);
                            crate::model::lemma_card_idx(s.cards, card_id);
                            if j >= 0 {
                                let onset = onset_list(s.cards[j].info.effects);
                                assert(0 <= j < s.cards.len());
                                assert forall|k: int|
                                    0 <= k < s.cards[j].info.effects.len() implies set_free(
                                    #[trigger] s.cards[j].info.effects[k].do_effect,
                                ) by {}
                                lemma_onset_set_free(s.cards[j].info.effects);
                                assert forall|i: int|
                                    0 <= i < onset.reverse().len() implies set_free(
                                    #[trigger] onset.reverse()[i],
                                ) by {
                                    assert(onset.reverse()[i] == onset[onset.len() - 1 - i]);
                                }
                                lemma_set_free_seq_elementwise(onset.reverse());
                                lemma_set_free_seq(onset.reverse(), gs2);
                                lemma_seq_pending_concat(onset.reverse(), rest);
                                lemma_seq_sets_ok_concat(onset.reverse(), rest, gs2);
                                assert(s2.effects == onset.reverse() + rest);
                                assert(seq_pending(s2.effects) =~= seq_pending(rest));
                            } else {
                                assert(s2 == s_mid);
                            }
                        } else {
                            assert(s2 == s_mid);
                        }
                        assert forall|p: int|
                            0 <= p < s.game_states.len() implies #[trigger] player_ids(step(s), p)
                            == player_ids(s, p) by {
                            if p == cp {
                                assert(state_ids(s2.game_states[cp]) == state_ids(cur).insert(
                                    card_id,
                                ));
                                assert(seq_pending(s2.effects) == seq_pending(rest));
                                assert(player_ids(s2, p) =~= player_ids(s, p));
                            } else {
                                assert(s2.game_states[p] == s.game_states[p]);
                            }
                        }
                    },
                    Action::Damage(n) => {
                        assert(tree_pending(e) =~= Multiset::<EntryId>::empty());
                        match crate::model::target_player(s1, targeting) {
                            Option::Some(p0) => {
                                let gs0 = s.game_states[p0 as int];
                                let gs2 = apply_damage_state(gs0, n);
                                assert(state_ids(gs2) =~= state_ids(gs0));
                                lemma_wf_update_state(s1, p0 as int, gs2);
                                lemma_sets_ok_same(rest, cur, s2.game_states[cp]);
                                assert forall|p: int|
                                    0 <= p < s.game_states.len() implies #[trigger] player_ids(
                                    step(s),
                                    p,
                                ) == player_ids(s, p) by {
                                    assert(player_ids(s2, p) =~= player_ids(s, p));
                                }
                            },
                            Option::None => {
                                assert(s2 == s1);
                                assert forall|p: int|
                                    0 <= p < s.game_states.len() implies #[trigger] player_ids(
                                    step(s),
                                    p,
                                ) == player_ids(s, p) by {
                                    if p == cp {
                                        assert(player_ids(s1, p) =~= player_ids(s, p));
                                    }
                                }
                            },
                        }
                    },
                    Action::AddRealPoint(n) => {
                        assert(tree_pending(e) =~= Multiset::<EntryId>::empty());
                        match crate::model::target_player(s1, targeting) {
                            Option::Some(p0) => {
                                let gs0 = s.game_states[p0 as int];
                                let gs2 = crate::model::apply_add_point_state(gs0, n);
                                assert(state_ids(gs2) =~= state_ids(gs0));
                                lemma_wf_update_state(s1, p0 as int, gs2);
                                lemma_sets_ok_same(rest, cur, s2.game_states[cp]);
                                assert forall|p: int|
                                    0 <= p < s.game_states.len() implies #[trigger] player_ids(
                                    step(s),
                                    p,
                                ) == player_ids(s, p) by {
                                    assert(player_ids(s2, p) =~= player_ids(s, p));
                                }
                            },
                            Option::None => {
                                assert(s2 == s1);
                                assert forall|p: int|
                                    0 <= p < s.game_states.len() implies #[trigger] player_ids(
                                    step(s),
                                    p,
                                ) == player_ids(s, p) by {
                                    if p == cp {
                                        assert(player_ids(s1, p) =~= player_ids(s, p));
                                    }
                                }
                            },
                        }
                    },
                    Action::UseRealPoint(n) => {
                        assert(tree_pending(e) =~= Multiset::<EntryId>::empty());
                        match crate::model::target_player(s1, targeting) {
                            Option::Some(p0) => {
                                let gs0 = s.game_states[p0 as int];
                                let gs2 = apply_use_point_state(gs0, n);
                                assert(state_ids(gs2) =~= state_ids(gs0));
                                lemma_wf_update_state(s1, p0 as int, gs2);
                                lemma_sets_ok_same(rest, cur, s2.game_states[cp]);
                                assert forall|p: int|
                                    0 <= p < s.game_states.len() implies #[trigger] player_ids(
                                    step(s),
                                    p,
                                ) == player_ids(s, p) by {
                                    assert(player_ids(s2, p) =~= player_ids(s, p));
                                }
                            },
                            Option::None => {
                                assert(s2 == s1);
                                assert forall|p: int|
                                    0 <= p < s.game_states.len() implies #[trigger] player_ids(
                                    step(s),
                                    p,
                                ) == player_ids(s, p) by {
                                    if p == cp {
                                        assert(player_ids(s1, p) =~= player_ids(s, p));
                                    }
                                }
                            },
                        }
                    },
                    Action::FightDestroy { zone_id } => {
                        assert(tree_pending(e) =~= Multiset::<EntryId>::empty());
                        let nx = spec_next_player(s1) as int;
                        let sa = destroy_side(s1, cp, zone_id);
                        lemma_destroy_state_ids(s1, cp, zone_id);
                        assert(wf_model(sa)) by {
                            if zone_idx(s1.game_states[cp].zone, zone_id) >= 0 {
                                lemma_wf_update_state(s1, cp, sa.game_states[cp]);
                            }
                        }
                        assert(0 <= nx < s.game_states.len());
                        lemma_destroy_state_ids(sa, nx, zone_id);
                        assert(s2 == destroy_side(sa, nx, zone_id));
                        assert(wf_model(s2)) by {
                            if zone_idx(sa.game_states[nx].zone, zone_id) >= 0 {
                                lemma_wf_update_state(sa, nx, s2.game_states[nx]);
                            }
                        }
                        assert(state_ids(s2.game_states[cp]) == state_ids(cur)) by {
                            if nx != cp {
                                assert(s2.game_states[cp] == sa.game_states[cp]);
                            }
                        }
                        lemma_sets_ok_same(rest, cur, s2.game_states[cp]);
                        assert forall|p: int|
                            0 <= p < s.game_states.len() implies #[trigger] player_ids(step(s), p)
                            == player_ids(s, p) by {
                            assert(state_ids(s2.game_states[p]) == state_ids(s.game_states[p]))
                                by {
                                if p != cp && p != nx {
                                    assert(s2.game_states[p] == s.game_states[p]);
                                } else if p == nx && nx != cp {
                                    assert(sa.game_states[nx] == s.game_states[nx]);
                                }
                            }
                            assert(player_ids(s2, p) =~= player_ids(s, p));
                        }
                    },
                    Action::AttackCounterUp(card_id, n) => {
                        assert(tree_pending(e) =~= Multiset::<EntryId>::empty());
                        let cards2 = crate::model::counter_up(s.cards, card_id, n);
                        assert(cards2.len() == s.cards.len() && forall|i: int|
                            0 <= i < cards2.len() ==> (#[trigger] cards2[i]).entry_id
                                == s.cards[i].entry_id && cards2[i].info == s.cards[i].info) by {
                            crate::model::lemma_card_idx(s.cards, card_id);
                        }
                        lemma_wf_update_cards(s1, cards2);
                        assert(registry_quiet(cards2));
                        assert forall|p: int|
                            0 <= p < s.game_states.len() implies #[trigger] player_ids(step(s), p)
                            == player_ids(s, p) by {
                            assert(player_ids(s2, p) =~= player_ids(s, p));
                        }
                    },
                    Action::AttackCountDown(card_id, n) => {
                        assert(tree_pending(e) =~= Multiset::<EntryId>::empty());
                        let cards2 = crate::model::counter_down(s.cards, card_id, n);
                        assert(cards2.len() == s.cards.len() && forall|i: int|
                            0 <= i < cards2.len() ==> (#[trigger] cards2[i]).entry_id
                                == s.cards[i].entry_id && cards2[i].info == s.cards[i].info) by {
                            crate::model::lemma_card_idx(s.cards, card_id);
                        }
                        lemma_wf_update_cards(s1, cards2);
                        assert(registry_quiet(cards2));
                        assert forall|p: int|
                            0 <= p < s.game_states.len() implies #[trigger] player_ids(step(s), p)
                            == player_ids(s, p) by {
                            assert(player_ids(s2, p) =~= player_ids(s, p));
                        }
                    },
                }
            },
        }
    }
}

/// Conservation over a whole run: however many steps the processor takes,
/// every player's ids are exactly what they were.
pub proof fn lemma_run_conserves(s: GameModel, n: nat)
    requires
        conserving(s),
    ensures
        conserving(run_steps(s, n)),
        run_steps(s, n).current_player == s.current_player,
        run_steps(s, n).game_states.len() == s.game_states.len(),
        forall|p: int|
            0 <= p < s.game_states.len() ==> #[trigger] player_ids(run_steps(s, n), p)
                == player_ids(s, p),
    decreases n,
{
    if n > 0 {
        lemma_step_conserves(s);
        lemma_run_conserves(step(s), (n - 1) as nat);
    }
}

/// Clearing one id from a pile drops exactly its occurrences.
pub proof fn lemma_remove_all_counts(s: Seq<EntryId>, x: EntryId)
    ensures
        forall|y: EntryId|
            #[trigger] remove_all(s, x).to_multiset().count(y) == (if y == x {
                0int
            } else {
                s.to_multiset().count(y) as int
            }),
    decreases s.len(),
{
    broadcast use vstd::multiset::group_multiset_axioms;
    broadcast use vstd::seq_lib::group_to_multiset_ensures;

    if s.len() == 0 {
        assert(remove_all(s, x) =~= s);
    } else {
        let pre = s.drop_last();
        lemma_remove_all_counts(pre, x);
        assert(s =~= pre.push(s.last()));
        assert(s.to_multiset() =~= pre.to_multiset().insert(s.last()));
        if s.last() == x {
            assert(remove_all(s, x) =~= remove_all(pre, x));
        } else {
            assert(remove_all(s, x) =~= remove_all(pre, x).push(s.last()));
            assert(remove_all(pre, x).push(s.last()).to_multiset() =~= remove_all(
                pre,
                x,
            ).to_multiset().insert(s.last()));
        }
    }
}

/// Retaining everything outside a chosen set drops exactly the occurrences
/// of that set's members.
pub proof fn lemma_retain_counts(s: Seq<EntryId>, xs: Seq<EntryId>)
    ensures
        forall|y: EntryId|
            #[trigger] crate::game::retain_not_in(s, xs).to_multiset().count(y) == (
            if xs.contains(y) {
                0int
            } else {
                s.to_multiset().count(y) as int
            }),
    decreases s.len(),
{
    broadcast use vstd::multiset::group_multiset_axioms;
    broadcast use vstd::seq_lib::group_to_multiset_ensures;

    if s.len() == 0 {
        assert(crate::game::retain_not_in(s, xs) =~= s);
    } else {
        let pre = s.drop_last();
        lemma_retain_counts(pre, xs);
        assert(s =~= pre.push(s.last()));
        assert(s.to_multiset() =~= pre.to_multiset().insert(s.last()));
        if xs.contains(s.last()) {
            assert(crate::game::retain_not_in(s, xs) =~= crate::game::retain_not_in(pre, xs));
        } else {
            assert(crate::game::retain_not_in(s, xs) =~= crate::game::retain_not_in(
                pre,
                xs,
            ).push(s.last()));
            assert(crate::game::retain_not_in(pre, xs).push(s.last()).to_multiset()
                =~= crate::game::retain_not_in(pre, xs).to_multiset().insert(s.last()));
        }
    }
}

/// A rejected or cancelled play nets out to nothing: the card leaves the
/// hand and comes straight back.
proof fn lemma_rollback_case(s: GameModel, card_id: EntryId)
    requires
        wf_model(s),
        quiescent(s),
        registry_quiet(s.cards),
        s.game_states[s.current_player as int].hand.to_multiset().count(card_id) == 1,
        s.game_states[s.current_player as int].cost.to_multiset().count(card_id) == 0,
    ensures
        ({
            let t = spec_set_rollback(spec_leave_hand(s, card_id), card_id);
            &&& conserving(t)
            &&& t.current_player == s.current_player
            &&& t.game_states.len() == s.game_states.len()
            &&& forall|p: int|
                0 <= p < s.game_states.len() ==> #[trigger] player_ids(t, p) == player_ids(s, p)
        }),
{
    broadcast use vstd::multiset::group_multiset_axioms;
    broadcast use vstd::seq_lib::group_to_multiset_ensures;

    let cp = s.current_player as int;
    let gs = s.game_states[cp];
    let s1 = spec_leave_hand(s, card_id);
    let gs1 = s1.game_states[cp];
    lemma_remove_all_counts(gs.hand, card_id);
    assert(!gs1.cost.contains(card_id));
    let t = spec_set_rollback(s1, card_id);
    let gs2 = t.game_states[cp];
    assert(gs2.hand == gs1.hand.push(card_id));
    assert(gs1.hand.push(card_id).to_multiset() =~= gs1.hand.to_multiset().insert(card_id));
    assert(t.game_states =~= s.game_states.update(cp, gs2));
    lemma_wf_update_state(s, cp, gs2);
    assert(seq_sets_ok(t.effects, t.game_states[t.current_player as int]));
    assert forall|p: int|
        0 <= p < s.game_states.len() implies #[trigger] player_ids(t, p) == player_ids(s, p) by {
        if p == cp {
            assert(state_ids(gs2) =~= state_ids(gs));
            assert(player_ids(t, p) =~= player_ids(s, p));
        } else {
            assert(t.game_states[p] == s.game_states[p]);
        }
    }
}

/// An accepted play nets out to a move: the card leaves the hand for the
/// queue, and the chosen hand cards move one for one into the cost area.
proof fn lemma_staged_play_case(
    s: GameModel,
    card_id: EntryId,
    zone_id: EntryId,
    hands: Seq<EntryId>,
    rp: usize,
)
    requires
        wf_model(s),
        quiescent(s),
        registry_quiet(s.cards),
        s.game_states[s.current_player as int].hand.to_multiset().count(card_id) == 1,
        s.game_states[s.current_player as int].cost.to_multiset().count(card_id) == 0,
        forall|y: EntryId| #[trigger] hands.to_multiset().count(y) <= 1,
        forall|i: int|
            0 <= i < hands.len()
                ==> s.game_states[s.current_player as int].hand.to_multiset().count(
                #[trigger] hands[i],
            ) == 1 && hands[i] != card_id,
    ensures
        ({
            let t = spec_play_staged(spec_leave_hand(s, card_id), card_id, zone_id, hands, rp);
            &&& conserving(t)
            &&& t.current_player == s.current_player
            &&& t.game_states.len() == s.game_states.len()
            &&& forall|p: int|
                0 <= p < s.game_states.len() ==> #[trigger] player_ids(t, p) == player_ids(s, p)
        }),
{
    broadcast use vstd::multiset::group_multiset_axioms;
    broadcast use vstd::seq_lib::group_to_multiset_ensures;

    let cp = s.current_player as int;
    let gs = s.game_states[cp];
    let s1 = spec_leave_hand(s, card_id);
    let gs1 = s1.game_states[cp];
    lemma_remove_all_counts(gs.hand, card_id);
    lemma_retain_counts(gs1.hand, hands);
    let s2 = spec_pay_cost(s1, hands, rp);
    let gs2 = s2.game_states[cp];
    let t = spec_play_staged(s1, card_id, zone_id, hands, rp);
    assert(!hands.contains(card_id)) by {
        if hands.contains(card_id) {
            let i = choose|i: int| 0 <= i < hands.len() && hands[i] == card_id;
            assert(hands[i] != card_id);
        }
    }
    vstd::seq_lib::lemma_multiset_commutative(gs.cost, hands);
    // the staged queue carries exactly the played card
    let set_act = act_eff(
        Targeting::TargetPlayerSelf,
        Targeting::Nothing,
        Action::SetCard { card_id, zone_id },
    );
    assert(t.effects =~= seq![set_act]);
    assert(t.effects.len() == 1);
    assert(t.effects[0] == set_act);
    assert(t.effects.subrange(1, 1) =~= Seq::<EffTree>::empty());
    assert(tree_pending(set_act) =~= Multiset::<EntryId>::empty().insert(card_id));
    assert(seq_pending(t.effects.subrange(1, 1)) =~= Multiset::<EntryId>::empty());
    assert(seq_pending(t.effects) == tree_pending(t.effects[0]).add(
        seq_pending(t.effects.subrange(1, 1)),
    ));
    assert(seq_pending(t.effects) =~= Multiset::<EntryId>::empty().insert(card_id));
    assert(t.game_states =~= s.game_states.update(cp, gs2));
    lemma_wf_update_state(s, cp, gs2);
    // the pending placement is sound against the paid side
    assert(gs2.cost.to_multiset().count(card_id) == 0);
    assert(sets_ok(set_act, gs2));
    assert(t.current_player == s.current_player);
    assert(t.game_states[t.current_player as int] == gs2);
    assert(seq_sets_ok(t.effects.subrange(1, 1), gs2));
    assert(seq_sets_ok(t.effects, t.game_states[t.current_player as int]));
    assert forall|p: int|
        0 <= p < s.game_states.len() implies #[trigger] player_ids(t, p) == player_ids(s, p) by {
        if p == cp {
            assert forall|y: EntryId|
                player_ids(t, p).count(y) == player_ids(s, p).count(y) by {
                if hands.contains(y) {
                    assert(hands.to_multiset().count(y) == 1);
                } else {
                    assert(hands.to_multiset().count(y) == 0);
                }
                assert((gs.cost + hands).to_multiset().count(y) == gs.cost.to_multiset().count(y)
                    + hands.to_multiset().count(y));
            }
            assert(player_ids(t, p) =~= player_ids(s, p));
        } else {
            assert(t.game_states[p] == s.game_states[p]);
        }
    }
}

/// Conservation at the play boundary: whatever a play stages — payment and
/// placement, or a rollback — every player holds exactly the ids it held
/// before, and the staged state satisfies everything the processor's own
/// conservation needs. Together with the conservation of every processor
/// step, no id is ever duplicated or dropped across a whole play.
pub proof fn lemma_play_stage_conserves(
    s: GameModel,
    card_id: EntryId,
    zone_id: EntryId,
    choice: ChoiceRes,
)
    requires
        wf_model(s),
        quiescent(s),
        registry_quiet(s.cards),
        s.game_states[s.current_player as int].hand.to_multiset().count(card_id) == 1,
        s.game_states[s.current_player as int].cost.to_multiset().count(card_id) == 0,
        match choice {
            ChoiceRes::Cost { hands, real_point } => {
                &&& forall|y: EntryId| #[trigger] hands@.to_multiset().count(y) <= 1
                &&& forall|i: int|
                    0 <= i < hands@.len()
                        ==> s.game_states[s.current_player as int].hand.to_multiset().count(
                        #[trigger] hands@[i],
                    ) == 1 && hands@[i] != card_id
            },
            _ => true,
        },
    ensures
        ({
            let t = spec_stage(s, PlayerAction::SetCard { card_id, zone_id }, choice);
            &&& conserving(t)
            &&& t.current_player == s.current_player
            &&& t.game_states.len() == s.game_states.len()
            &&& forall|p: int|
                0 <= p < s.game_states.len() ==> #[trigger] player_ids(t, p) == player_ids(s, p)
        }),
{
    let cp = s.current_player as int;
    let s1 = spec_leave_hand(s, card_id);
    let gs1 = s1.game_states[cp];
    let j = card_idx(s.cards, card_id);
    if j < 0 {
        lemma_rollback_case(s, card_id);
    } else if zone_idx(s.game_states[cp].zone, zone_id) < 0 {
        lemma_rollback_case(s, card_id);
    } else {
        let cost = s.cards[j].info.cost;
        if cost == 0 {
            assert(forall|y: EntryId| #[trigger] Seq::<EntryId>::empty().to_multiset().count(y)
                <= 1) by {
                broadcast use vstd::seq_lib::group_to_multiset_ensures;

            }
            lemma_staged_play_case(s, card_id, zone_id, Seq::empty(), 0);
        } else if !spec_can_afford(
            gs1.hand.len() as int,
            gs1.cost.len() as int,
            gs1.real_point as int,
            cost as int,
        ) {
            lemma_rollback_case(s, card_id);
        } else {
            match choice {
                ChoiceRes::Cost { hands, real_point } => {
                    lemma_staged_play_case(s, card_id, zone_id, hands@, real_point);
                },
                _ => {
                    lemma_rollback_case(s, card_id);
                },
            }
        }
    }
}

/// Conservation across a whole play: staging the play and then letting the
/// processor run any number of steps leaves every player holding exactly the
/// ids it held before.
pub proof fn lemma_play_conserves(
    s: GameModel,
    card_id: EntryId,
    zone_id: EntryId,
    choice: ChoiceRes,
    n: nat,
)
    requires
        wf_model(s),
        quiescent(s),
        registry_quiet(s.cards),
        s.game_states[s.current_player as int].hand.to_multiset().count(card_id) == 1,
        s.game_states[s.current_player as int].cost.to_multiset().count(card_id) == 0,
        match choice {
            ChoiceRes::Cost { hands, real_point } => {
                &&& forall|y: EntryId| #[trigger] hands@.to_multiset().count(y) <= 1
                &&& forall|i: int|
                    0 <= i < hands@.len()
                        ==> s.game_states[s.current_player as int].hand.to_multiset().count(
                        #[trigger] hands@[i],
                    ) == 1 && hands@[i] != card_id
            },
            _ => true,
        },
    ensures
        ({
            let t = run_steps(spec_stage(s, PlayerAction::SetCard { card_id, zone_id }, choice), n);
            forall|p: int|
                0 <= p < s.game_states.len() ==> #[trigger] player_ids(t, p) == player_ids(s, p)
        }),
{
    lemma_play_stage_conserves(s, card_id, zone_id, choice);
    lemma_run_conserves(spec_stage(s, PlayerAction::SetCard { card_id, zone_id }, choice), n);
}

/// Conservation at the payment boundary: paying with duplicate-free hand
/// cards that each sit in the hand once moves them one for one into the cost
/// area, so every player holds exactly the ids it held before.
pub proof fn lemma_pay_cost_conserves(s: GameModel, hands: Seq<EntryId>, real_point: usize)
    requires
        wf_model(s),
        forall|y: EntryId| #[trigger] hands.to_multiset().count(y) <= 1,
        forall|i: int|
            0 <= i < hands.len()
                ==> s.game_states[s.current_player as int].hand.to_multiset().count(
                #[trigger] hands[i],
            ) == 1,
    ensures
        forall|p: int|
            0 <= p < s.game_states.len() ==> #[trigger] player_ids(
                spec_pay_cost(s, hands, real_point),
                p,
            ) == player_ids(s, p),
{
    broadcast use vstd::multiset::group_multiset_axioms;
    broadcast use vstd::seq_lib::group_to_multiset_ensures;

    let cp = s.current_player as int;
    let gs = s.game_states[cp];
    let t = spec_pay_cost(s, hands, real_point);
    lemma_retain_counts(gs.hand, hands);
    vstd::seq_lib::lemma_multiset_commutative(gs.cost, hands);
    assert forall|p: int|
        0 <= p < s.game_states.len() implies #[trigger] player_ids(t, p) == player_ids(s, p) by {
        if p == cp {
            assert forall|y: EntryId| player_ids(t, p).count(y) == player_ids(s, p).count(y) by {
                if hands.contains(y) {
                    assert(hands.to_multiset().count(y) == 1);
                } else {
                    assert(hands.to_multiset().count(y) == 0);
                }
                assert((gs.cost + hands).to_multiset().count(y) == gs.cost.to_multiset().count(y)
                    + hands.to_multiset().count(y));
            }
            assert(player_ids(t, p) =~= player_ids(s, p));
        } else {
            assert(t.game_states[p] == s.game_states[p]);
        }
    }
}
} // verus!
