use card_engine::card::CardInfoBuilder;
use card_engine::choice_res::ChoiceRes;
use card_engine::common::EntryId;
use card_engine::game::{Game, GamePhase, Zone};
use card_engine::lua_api::LuaApi;
use card_engine::player::{Player, PlayerDesk};
use card_engine::player_actions::PlayerAction;
use card_engine::targeting::Targeting;

fn catalog_with(cards: Vec<(&str, usize, usize)>) -> LuaApi {
    let mut api = LuaApi::new();
    for (id, cost, ack) in cards {
        let mut b = CardInfoBuilder::new(id.to_string());
        b.set_name(id.to_string());
        b.set_cost(cost);
        b.set_ack(ack);
        api.add_card(b.build());
    }
    api
}

fn desk_of(ids: Vec<&str>) -> PlayerDesk {
    PlayerDesk(ids.iter().map(|s| s.to_string()).collect())
}

fn pass_turn(game: &mut Game) {
    for _ in 0..7 {
        game.step_phase().expect("phase step within budget");
    }
}

fn front_zone_ids(zones: &[Zone]) -> Vec<EntryId> {
    zones
        .iter()
        .filter_map(|z| match z {
            Zone::FrontEnd { id, .. } => Some(*id),
            Zone::BackEnd { .. } => None,
        })
        .collect()
}

#[test]
fn opening_state() {
    let api = catalog_with(vec![("unit", 0, 1)]);
    let p0 = Player { id: 0, player_desk: desk_of(vec!["unit", "unit", "unit"]) };
    let p1 = Player { id: 1, player_desk: desk_of(vec!["unit"]) };
    let game = Game::new(vec![p0, p1], &api);
    assert_eq!(game.current_player(), 0);
    assert!(matches!(game.current_phase(), GamePhase::Start));
    // three instances, all drawn into the opening hand
    assert_eq!(game.current_hand().len(), 3);
    assert_eq!(game.current_desk_len(), 0);
    assert_eq!(game.current_hp(), 6);
    assert_eq!(game.current_real_point(), 0);
    assert!(game.current_cost().is_empty());
    assert!(game.current_grave().is_empty());
    // four front-row and four back-row slots
    let zones = game.current_zone();
    assert_eq!(zones.len(), 8);
    assert_eq!(front_zone_ids(&zones).len(), 4);
    // entry ids 1..=3 belong to the first player's instances
    let mut hand = game.current_hand();
    hand.sort();
    assert_eq!(hand, vec![1, 2, 3]);
}

#[test]
fn unknown_catalog_ids_are_skipped() {
    let api = catalog_with(vec![("unit", 0, 1)]);
    let p0 = Player { id: 0, player_desk: desk_of(vec!["unit", "missing", "unit"]) };
    let game = Game::new(vec![p0], &api);
    assert_eq!(game.current_hand().len(), 2);
}

#[test]
fn lookup_misses_are_explicit() {
    let api = catalog_with(vec![("unit", 0, 1)]);
    let p0 = Player { id: 0, player_desk: desk_of(vec!["unit"]) };
    let game = Game::new(vec![p0], &api);
    assert!(game.get(999).is_none());
    assert!(game.check_cost(999).is_none());
    assert!(game.get(1).is_some());
}

#[test]
fn phase_cycle_returns_to_start_and_hands_turn_over() {
    let api = catalog_with(vec![("unit", 0, 1)]);
    let p0 = Player { id: 0, player_desk: desk_of(vec!["unit"]) };
    let p1 = Player { id: 1, player_desk: desk_of(vec!["unit"]) };
    let mut game = Game::new(vec![p0, p1], &api);
    let expected = [
        GamePhase::Draw,
        GamePhase::Reuse,
        GamePhase::Main,
        GamePhase::Fight,
        GamePhase::Main2,
        GamePhase::End,
        GamePhase::Start,
    ];
    for (k, want) in expected.iter().enumerate() {
        assert_eq!(game.current_player(), 0, "owner fixed before step {}", k);
        game.step_phase().unwrap();
        assert_eq!(game.current_phase(), *want);
    }
    // the owner advanced exactly once, at the End boundary
    assert_eq!(game.current_player(), 1);
}

#[test]
fn draw_phase_draws_one_from_deck_tail() {
    let api = catalog_with(vec![("unit", 0, 1)]);
    let p0 = Player {
        id: 0,
        player_desk: desk_of(vec!["unit", "unit", "unit", "unit", "unit", "unit", "unit"]),
    };
    let mut game = Game::new(vec![p0], &api);
    assert_eq!(game.current_hand().len(), 5);
    assert_eq!(game.current_desk_len(), 2);
    game.step_phase().unwrap(); // start
    game.step_phase().unwrap(); // draw
    assert_eq!(game.current_hand().len(), 6);
    assert_eq!(game.current_desk_len(), 1);
}

#[test]
fn affordability_formula() {
    // hand pays only up to the free cost-area slots, plus banked points
    let api = catalog_with(vec![("unit", 0, 1), ("pricey", 4, 1), ("priceier", 5, 1)]);
    let p0 = Player {
        id: 0,
        player_desk: desk_of(vec!["unit", "unit", "unit", "unit", "pricey", "priceier"]),
    };
    let p1 = Player { id: 1, player_desk: desk_of(vec!["unit"]) };
    let mut game = Game::new(vec![p0, p1], &api);
    // draw the sixth card so the whole deck is in hand (ids 1..=6)
    game.step_phase().unwrap();
    game.step_phase().unwrap();
    assert_eq!(game.current_hand().len(), 6);
    // play a free unit to the first front-row slot (slot ids start at 7)
    let zones = game.current_zone();
    let front = front_zone_ids(&zones)[0];
    game.deal_player_action(
        PlayerAction::SetCard { card_id: 1, zone_id: front },
        ChoiceRes::Nothing,
    )
    .unwrap();
    assert_eq!(game.current_hand().len(), 5);
    // a direct attack on an empty defending board banks one point
    game.deal_player_action(
        PlayerAction::AttackCard {
            source: Targeting::TargetZone(front),
            target: Targeting::TargetPlayerOpponent,
        },
        ChoiceRes::Nothing,
    )
    .unwrap();
    assert_eq!(game.current_real_point(), 1);
    // move two hand cards into the cost area
    game.cost(vec![2, 3], 0);
    assert_eq!(game.current_hand().len(), 3);
    assert_eq!(game.current_cost().len(), 2);
    // hand=3, cost area uses 2 of 6 slots, pool=1: available = min(3,4)+1 = 4
    assert_eq!(game.check_cost(5), Some(true)); // cost 4 succeeds
    assert_eq!(game.check_cost(6), Some(false)); // cost 5 fails
}

#[test]
fn unaffordable_play_rolls_back_to_hand() {
    let api = catalog_with(vec![("pricey", 4, 1)]);
    let p0 = Player { id: 0, player_desk: desk_of(vec!["pricey"]) };
    let mut game = Game::new(vec![p0], &api);
    assert_eq!(game.current_hand(), vec![1]);
    let zones = game.current_zone();
    let front = front_zone_ids(&zones)[0];
    // hand=1 (minus the played card), pool=0: cost 4 cannot be paid
    game.deal_player_action(
        PlayerAction::SetCard { card_id: 1, zone_id: front },
        ChoiceRes::Nothing,
    )
    .unwrap();
    assert_eq!(game.current_hand(), vec![1]);
    assert!(game.current_zone().iter().all(|z| !z.has_cards()));
}

#[test]
fn cancelled_payment_rolls_back_to_hand() {
    let api = catalog_with(vec![("cheap", 1, 1), ("unit", 0, 1)]);
    let p0 = Player { id: 0, player_desk: desk_of(vec!["cheap", "unit", "unit"]) };
    let mut game = Game::new(vec![p0], &api);
    let zones = game.current_zone();
    let front = front_zone_ids(&zones)[0];
    // affordable, but the actor cancels: the card returns to hand
    game.deal_player_action(
        PlayerAction::SetCard { card_id: 1, zone_id: front },
        ChoiceRes::Nothing,
    )
    .unwrap();
    let mut hand = game.current_hand();
    hand.sort();
    assert_eq!(hand, vec![1, 2, 3]);
}

#[test]
fn paid_play_moves_hand_cards_to_cost_area() {
    let api = catalog_with(vec![("cheap", 2, 1), ("unit", 0, 1)]);
    let p0 = Player { id: 0, player_desk: desk_of(vec!["cheap", "unit", "unit"]) };
    let mut game = Game::new(vec![p0], &api);
    let zones = game.current_zone();
    let front = front_zone_ids(&zones)[0];
    game.deal_player_action(
        PlayerAction::SetCard { card_id: 1, zone_id: front },
        ChoiceRes::Cost { hands: vec![2, 3], real_point: 0 },
    )
    .unwrap();
    assert!(game.current_hand().is_empty());
    let mut cost = game.current_cost();
    cost.sort();
    assert_eq!(cost, vec![2, 3]);
    // the played card sits in the chosen slot
    let zones = game.current_zone();
    let placed = zones.iter().any(|z| z.has_id(front) && z.has_cards());
    assert!(placed);
}

#[test]
fn combat_tie_destroys_both_and_banks_a_point() {
    let api = catalog_with(vec![("tri", 0, 3)]);
    let p0 = Player { id: 0, player_desk: desk_of(vec!["tri"]) };
    let p1 = Player { id: 1, player_desk: desk_of(vec!["tri"]) };
    let mut game = Game::new(vec![p0, p1], &api);
    // attacker entry 1, its slots 2..9; defender entry 10, its slots 11..18
    let my_front = front_zone_ids(&game.current_zone())[0];
    game.deal_player_action(
        PlayerAction::SetCard { card_id: 1, zone_id: my_front },
        ChoiceRes::Nothing,
    )
    .unwrap();
    pass_turn(&mut game);
    assert_eq!(game.current_player(), 1);
    let their_front = front_zone_ids(&game.current_zone())[0];
    game.deal_player_action(
        PlayerAction::SetCard { card_id: 10, zone_id: their_front },
        ChoiceRes::Nothing,
    )
    .unwrap();
    pass_turn(&mut game);
    assert_eq!(game.current_player(), 0);
    game.deal_player_action(
        PlayerAction::AttackCard {
            source: Targeting::TargetZone(my_front),
            target: Targeting::TargetZone(their_front),
        },
        ChoiceRes::Nothing,
    )
    .unwrap();
    // both slots destroyed, the attacking player banks a point,
    // and the tie path advances no attack counter
    assert_eq!(game.current_grave(), vec![1]);
    assert_eq!(game.current_real_point(), 1);
    assert!(game.current_zone().iter().all(|z| !z.has_cards()));
    assert_eq!(game.get(1).unwrap().attack_counter, 0);
    pass_turn(&mut game);
    assert_eq!(game.current_grave(), vec![10]);
    assert!(game.current_zone().iter().all(|z| !z.has_cards()));
    assert_eq!(game.current_real_point(), 0);
}

#[test]
fn attack_must_name_an_attackable_slot() {
    let api = catalog_with(vec![("tri", 0, 3)]);
    let p0 = Player { id: 0, player_desk: desk_of(vec!["tri"]) };
    let p1 = Player { id: 1, player_desk: desk_of(vec!["tri"]) };
    let mut game = Game::new(vec![p0, p1], &api);
    let my_front = front_zone_ids(&game.current_zone())[0];
    game.deal_player_action(
        PlayerAction::SetCard { card_id: 1, zone_id: my_front },
        ChoiceRes::Nothing,
    )
    .unwrap();
    pass_turn(&mut game);
    let their_zones = game.current_zone();
    let their_front = front_zone_ids(&their_zones)[0];
    let their_empty_front = front_zone_ids(&their_zones)[1];
    let their_back = their_zones
        .iter()
        .find_map(|z| match z {
            Zone::BackEnd { id, .. } => Some(*id),
            Zone::FrontEnd { .. } => None,
        })
        .unwrap();
    game.deal_player_action(
        PlayerAction::SetCard { card_id: 10, zone_id: their_front },
        ChoiceRes::Nothing,
    )
    .unwrap();
    pass_turn(&mut game);
    // while the defender has an attackable slot, a target naming an empty
    // slot, a back-row slot, a nonexistent id, or the player is rejected
    for bad in [
        Targeting::TargetZone(their_empty_front),
        Targeting::TargetZone(their_back),
        Targeting::TargetZone(999),
        Targeting::TargetPlayerOpponent,
    ] {
        game.deal_player_action(
            PlayerAction::AttackCard { source: Targeting::TargetZone(my_front), target: bad },
            ChoiceRes::Nothing,
        )
        .unwrap();
        assert_eq!(game.current_real_point(), 0);
        assert!(game.current_grave().is_empty());
        assert!(game.current_zone().iter().any(|z| z.has_id(my_front) && z.has_cards()));
    }
}

#[test]
fn combat_loss_still_banks_a_point() {
    let api = catalog_with(vec![("strong", 0, 9), ("mid", 0, 3)]);
    let p0 = Player { id: 0, player_desk: desk_of(vec!["strong"]) };
    let p1 = Player { id: 1, player_desk: desk_of(vec!["mid"]) };
    let mut game = Game::new(vec![p0, p1], &api);
    let p0_front = front_zone_ids(&game.current_zone())[0];
    game.deal_player_action(
        PlayerAction::SetCard { card_id: 1, zone_id: p0_front },
        ChoiceRes::Nothing,
    )
    .unwrap();
    pass_turn(&mut game);
    let p1_front = front_zone_ids(&game.current_zone())[0];
    game.deal_player_action(
        PlayerAction::SetCard { card_id: 10, zone_id: p1_front },
        ChoiceRes::Nothing,
    )
    .unwrap();
    // the weaker attacker loses its own slot but still banks a point
    game.deal_player_action(
        PlayerAction::AttackCard {
            source: Targeting::TargetZone(p1_front),
            target: Targeting::TargetZone(p0_front),
        },
        ChoiceRes::Nothing,
    )
    .unwrap();
    assert_eq!(game.current_grave(), vec![10]);
    assert_eq!(game.current_real_point(), 1);
    // the winner keeps its card on the board
    pass_turn(&mut game);
    assert!(game.current_zone().iter().any(|z| z.has_id(p0_front) && z.has_cards()));
}

#[test]
fn spend_guard_refuses_partial_spends() {
    let api = catalog_with(vec![("unit", 0, 1)]);
    let p0 = Player { id: 0, player_desk: desk_of(vec!["unit"]) };
    let p1 = Player { id: 1, player_desk: desk_of(vec!["unit"]) };
    let mut game = Game::new(vec![p0, p1], &api);
    let front = front_zone_ids(&game.current_zone())[0];
    game.deal_player_action(
        PlayerAction::SetCard { card_id: 1, zone_id: front },
        ChoiceRes::Nothing,
    )
    .unwrap();
    // first direct attack banks one point automatically
    game.deal_player_action(
        PlayerAction::AttackCard {
            source: Targeting::TargetZone(front),
            target: Targeting::TargetPlayerOpponent,
        },
        ChoiceRes::Nothing,
    )
    .unwrap();
    assert_eq!(game.current_real_point(), 1);
    pass_turn(&mut game); // hand the turn over
    pass_turn(&mut game); // and get it back, refreshing the counter
    // claim 5 points of damage while holding 1: the damage lands,
    // but the guarded spend leaves the pool untouched
    game.deal_player_action(
        PlayerAction::AttackCard {
            source: Targeting::TargetZone(front),
            target: Targeting::TargetPlayerOpponent,
        },
        ChoiceRes::FightDamageByRealPoint(5),
    )
    .unwrap();
    assert_eq!(game.current_real_point(), 1);
    pass_turn(&mut game);
    assert_eq!(game.current_hp(), 1); // 6 > 5, ordinary loss
}

#[test]
fn damage_is_absorbed_by_the_pool_near_zero() {
    let api = catalog_with(vec![("strong", 0, 9), ("mid", 0, 3)]);
    let p0 = Player { id: 0, player_desk: desk_of(vec!["strong"]) };
    let p1 = Player { id: 1, player_desk: desk_of(vec!["mid", "mid"]) };
    let mut game = Game::new(vec![p0, p1], &api);
    let p0_front = front_zone_ids(&game.current_zone())[0];
    game.deal_player_action(
        PlayerAction::SetCard { card_id: 1, zone_id: p0_front },
        ChoiceRes::Nothing,
    )
    .unwrap();
    // turn 1 attack: the defender's board is empty, bank a point
    let attack_direct = PlayerAction::AttackCard {
        source: Targeting::TargetZone(p0_front),
        target: Targeting::TargetPlayerOpponent,
    };
    game.deal_player_action(attack_direct, ChoiceRes::Nothing).unwrap();
    assert_eq!(game.current_real_point(), 1);
    pass_turn(&mut game);
    // the defender banks two points by losing two fights on purpose
    let p1_front = front_zone_ids(&game.current_zone())[0];
    let mut p1_hand = game.current_hand();
    p1_hand.sort();
    game.deal_player_action(
        PlayerAction::SetCard { card_id: p1_hand[0], zone_id: p1_front },
        ChoiceRes::Nothing,
    )
    .unwrap();
    game.deal_player_action(
        PlayerAction::AttackCard {
            source: Targeting::TargetZone(p1_front),
            target: Targeting::TargetZone(p0_front),
        },
        ChoiceRes::Nothing,
    )
    .unwrap();
    game.deal_player_action(
        PlayerAction::SetCard { card_id: p1_hand[1], zone_id: p1_front },
        ChoiceRes::Nothing,
    )
    .unwrap();
    game.deal_player_action(
        PlayerAction::AttackCard {
            source: Targeting::TargetZone(p1_front),
            target: Targeting::TargetZone(p0_front),
        },
        ChoiceRes::Nothing,
    )
    .unwrap();
    assert_eq!(game.current_real_point(), 2);
    pass_turn(&mut game);
    // bank up to 3 attacker points over two more turns
    game.deal_player_action(attack_direct, ChoiceRes::Nothing).unwrap();
    pass_turn(&mut game);
    pass_turn(&mut game);
    game.deal_player_action(attack_direct, ChoiceRes::Nothing).unwrap();
    assert_eq!(game.current_real_point(), 3);
    // spend 3 as damage: defender at hp 6 takes an ordinary loss to 3
    pass_turn(&mut game);
    pass_turn(&mut game);
    game.deal_player_action(attack_direct, ChoiceRes::FightDamageByRealPoint(3)).unwrap();
    assert_eq!(game.current_real_point(), 0);
    pass_turn(&mut game);
    assert_eq!(game.current_hp(), 3);
    assert_eq!(game.current_real_point(), 2);
    pass_turn(&mut game);
    // bank back to 4
    game.deal_player_action(attack_direct, ChoiceRes::Nothing).unwrap();
    pass_turn(&mut game);
    pass_turn(&mut game);
    game.deal_player_action(attack_direct, ChoiceRes::Nothing).unwrap();
    pass_turn(&mut game);
    pass_turn(&mut game);
    game.deal_player_action(attack_direct, ChoiceRes::Nothing).unwrap();
    pass_turn(&mut game);
    pass_turn(&mut game);
    game.deal_player_action(attack_direct, ChoiceRes::Nothing).unwrap();
    assert_eq!(game.current_real_point(), 4);
    pass_turn(&mut game);
    pass_turn(&mut game);
    // hp=3, pool=2, damage=4: pool+hp(5) > 4, so hp=1 and pool=2-(4-3+1)=0
    game.deal_player_action(attack_direct, ChoiceRes::FightDamageByRealPoint(4)).unwrap();
    pass_turn(&mut game);
    assert_eq!(game.current_hp(), 1);
    assert_eq!(game.current_real_point(), 0);
    pass_turn(&mut game);
    // one more point, then overkill: hp+pool at or under the damage collapses both
    game.deal_player_action(attack_direct, ChoiceRes::Nothing).unwrap();
    pass_turn(&mut game);
    pass_turn(&mut game);
    game.deal_player_action(attack_direct, ChoiceRes::FightDamageByRealPoint(1)).unwrap();
    pass_turn(&mut game);
    assert_eq!(game.current_hp(), 0);
    assert_eq!(game.current_real_point(), 0);
}

#[test]
fn conservation_across_a_match() {
    let api = catalog_with(vec![("tri", 0, 3), ("unit", 0, 1)]);
    let p0 = Player { id: 0, player_desk: desk_of(vec!["tri", "unit", "unit"]) };
    let p1 = Player { id: 1, player_desk: desk_of(vec!["tri"]) };
    let mut game = Game::new(vec![p0, p1], &api);
    let p0_front = front_zone_ids(&game.current_zone())[0];
    let mut hand = game.current_hand();
    hand.sort();
    game.deal_player_action(
        PlayerAction::SetCard { card_id: hand[0], zone_id: p0_front },
        ChoiceRes::Nothing,
    )
    .unwrap();
    pass_turn(&mut game);
    let p1_front = front_zone_ids(&game.current_zone())[0];
    game.deal_player_action(
        PlayerAction::SetCard { card_id: 12, zone_id: p1_front },
        ChoiceRes::Nothing,
    )
    .unwrap();
    pass_turn(&mut game);
    game.deal_player_action(
        PlayerAction::AttackCard {
            source: Targeting::TargetZone(p0_front),
            target: Targeting::TargetZone(p1_front),
        },
        ChoiceRes::Nothing,
    )
    .unwrap();
    // player 0 still owns exactly its three instances, wherever they sit
    let mut ids: Vec<EntryId> = Vec::new();
    ids.extend(game.current_hand());
    ids.extend(game.current_cost());
    ids.extend(game.current_grave());
    for z in game.current_zone() {
        match z {
            Zone::FrontEnd { cards, .. } => ids.extend(cards),
            Zone::BackEnd { cards, .. } => ids.extend(cards),
        }
    }
    assert_eq!(game.current_desk_len(), 0);
    ids.sort();
    assert_eq!(ids, vec![1, 2, 3]);
    // and player 1 its one
    pass_turn(&mut game);
    let mut ids: Vec<EntryId> = Vec::new();
    ids.extend(game.current_hand());
    ids.extend(game.current_cost());
    ids.extend(game.current_grave());
    for z in game.current_zone() {
        match z {
            Zone::FrontEnd { cards, .. } => ids.extend(cards),
            Zone::BackEnd { cards, .. } => ids.extend(cards),
        }
    }
    ids.sort();
    assert_eq!(ids, vec![12]);
}
