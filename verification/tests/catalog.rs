use card_engine::card::{Card, CardInfoBuilder};
use card_engine::choice_res::ChoiceRes;
use card_engine::common::IdGenerator;
use card_engine::effect::{Action, Condition, DoEffect, Effect, EffectBuilder, WindowsTag};
use card_engine::game::{Game, GamePhase, ProcessError, Zone};
use card_engine::lua_api::LuaApi;
use card_engine::player::{Player, PlayerDesk};
use card_engine::player_actions::PlayerAction;
use card_engine::targeting::Targeting;
use card_engine::window_event::WindowEvent;

#[test]
fn id_generator_counts_up_from_one() {
    let mut gen = IdGenerator::new();
    assert_eq!(gen.next(), 1);
    assert_eq!(gen.next(), 2);
    assert_eq!(gen.next(), 3);
}

#[test]
fn phase_successor_cycles() {
    let mut p = GamePhase::Start;
    let expected = [
        GamePhase::Draw,
        GamePhase::Reuse,
        GamePhase::Main,
        GamePhase::Fight,
        GamePhase::Main2,
        GamePhase::End,
        GamePhase::Start,
    ];
    for want in expected {
        p = GamePhase::next(&p);
        assert_eq!(p, want);
    }
}

#[test]
fn card_info_builder_collects_fields() {
    let mut b = CardInfoBuilder::new("hero".to_string());
    b.set_name("Hero".to_string());
    b.set_cost(3);
    b.set_ack(7);
    let mut eb = EffectBuilder::new("e1".to_string());
    eb.set_window(WindowsTag::OnSet);
    eb.set_draw(2);
    b.add_effect(eb.build());
    let info = b.build();
    assert_eq!(info.name, "Hero");
    assert_eq!(info.cost, 3);
    assert_eq!(info.ack, 7);
    assert_eq!(info.effects.len(), 1);
    assert_eq!(info.effects[0].windows_tag, WindowsTag::OnSet);
    assert!(matches!(
        info.effects[0].do_effect,
        DoEffect::Action { action: Action::Draw(2), .. }
    ));
}

#[test]
fn catalog_lookup_finds_first_match() {
    let mut api = LuaApi::new();
    let b = CardInfoBuilder::new("a".to_string());
    api.add_card(b.build());
    let mut b = CardInfoBuilder::new("b".to_string());
    b.set_cost(2);
    api.add_card(b.build());
    assert!(api.get(&"a".to_string()).is_some());
    assert_eq!(api.get(&"b".to_string()).unwrap().cost, 2);
    assert!(api.get(&"c".to_string()).is_none());
}

#[test]
fn card_init_skips_unknown_ids_and_numbers_in_order() {
    let mut api = LuaApi::new();
    api.add_card(CardInfoBuilder::new("known".to_string()).build());
    let desk = PlayerDesk(vec![
        "known".to_string(),
        "unknown".to_string(),
        "known".to_string(),
    ]);
    let mut gen = IdGenerator::new();
    let cards = Card::init(&desk, &api, &mut gen);
    assert_eq!(cards.len(), 2);
    assert_eq!(cards[0].entry_id, 1);
    assert_eq!(cards[1].entry_id, 2);
    assert_eq!(cards[0].attack_counter, 0);
    assert_eq!(cards[0].attack_max, 1);
}

#[test]
fn zone_init_lays_out_front_and_back_rows() {
    let mut gen = IdGenerator::new();
    let zones = Zone::init(&mut gen);
    assert_eq!(zones.len(), 8);
    for (k, z) in zones.iter().enumerate() {
        assert!(z.has_id((k + 1) as usize));
        assert!(!z.has_cards());
        match z {
            Zone::FrontEnd { .. } => assert!(k < 4),
            Zone::BackEnd { .. } => assert!(k >= 4),
        }
    }
}

#[test]
fn placing_a_card_fires_its_on_set_draw() {
    // every deck entry is the same definition, so whichever five are drawn,
    // any hand card placed fires the on-set window and draws one
    let mut api = LuaApi::new();
    let mut b = CardInfoBuilder::new("drawer".to_string());
    b.set_ack(1);
    let mut eb = EffectBuilder::new("on_set_draw".to_string());
    eb.set_window(WindowsTag::OnSet);
    eb.set_draw(1);
    b.add_effect(eb.build());
    api.add_card(b.build());
    let desk = PlayerDesk(vec!["drawer".to_string(); 7]);
    let p0 = Player { id: 0, player_desk: desk };
    let mut game = Game::new(vec![p0], &api);
    assert_eq!(game.current_hand().len(), 5);
    assert_eq!(game.current_desk_len(), 2);
    let card = game.current_hand()[0];
    let front = game
        .current_zone()
        .iter()
        .find_map(|z| match z {
            Zone::FrontEnd { id, .. } => Some(*id),
            Zone::BackEnd { .. } => None,
        })
        .unwrap();
    game.deal_player_action(
        PlayerAction::SetCard { card_id: card, zone_id: front },
        ChoiceRes::Nothing,
    )
    .unwrap();
    // one left the hand for the board, one was drawn by the reaction
    assert_eq!(game.current_hand().len(), 5);
    assert_eq!(game.current_desk_len(), 1);
}

#[test]
fn back_row_placement_fires_the_window_too() {
    // the window fires whenever the slot reference resolves, back row included
    let mut api = LuaApi::new();
    let mut b = CardInfoBuilder::new("drawer".to_string());
    let mut eb = EffectBuilder::new("on_set_draw".to_string());
    eb.set_window(WindowsTag::OnSet);
    eb.set_draw(1);
    b.add_effect(eb.build());
    api.add_card(b.build());
    let desk = PlayerDesk(vec!["drawer".to_string(); 7]);
    let p0 = Player { id: 0, player_desk: desk };
    let mut game = Game::new(vec![p0], &api);
    let card = game.current_hand()[0];
    let back = game
        .current_zone()
        .iter()
        .find_map(|z| match z {
            Zone::BackEnd { id, .. } => Some(*id),
            Zone::FrontEnd { .. } => None,
        })
        .unwrap();
    game.deal_player_action(
        PlayerAction::SetCard { card_id: card, zone_id: back },
        ChoiceRes::Nothing,
    )
    .unwrap();
    // the card sits in the back row and its reaction drew one
    assert_eq!(game.current_hand().len(), 5);
    assert_eq!(game.current_desk_len(), 1);
    let placed = game.current_zone().iter().any(|z| z.has_id(back) && z.has_cards());
    assert!(placed);
}

#[test]
fn play_into_an_unknown_slot_is_rejected() {
    // a slot reference no zone carries rejects the play before anything is
    // paid: the card returns to the hand and no id is lost
    let mut api = LuaApi::new();
    api.add_card(CardInfoBuilder::new("unit".to_string()).build());
    let p0 = Player { id: 0, player_desk: PlayerDesk(vec!["unit".to_string()]) };
    let mut game = Game::new(vec![p0], &api);
    game.deal_player_action(
        PlayerAction::SetCard { card_id: 1, zone_id: 999 },
        ChoiceRes::Nothing,
    )
    .unwrap();
    assert_eq!(game.current_hand(), vec![1]);
    assert!(game.current_zone().iter().all(|z| !z.has_cards()));
    assert!(game.current_cost().is_empty());
    assert!(game.current_grave().is_empty());
}

#[test]
fn runaway_effect_chains_error_out() {
    // a hand-built bundle larger than the resolution budget is cut off
    // rather than looped on: the engine reports the exhaustion explicitly
    let mut api = LuaApi::new();
    let mut b = CardInfoBuilder::new("bomb".to_string());
    let mut children: Vec<DoEffect> = Vec::new();
    for _ in 0..100001 {
        children.push(DoEffect::Nothing);
    }
    b.add_effect(Effect {
        id: "endless".to_string(),
        windows_tag: WindowsTag::OnSet,
        condition: Condition::Nothing,
        do_effect: DoEffect::AndAction(children),
    });
    api.add_card(b.build());
    let p0 = Player { id: 0, player_desk: PlayerDesk(vec!["bomb".to_string()]) };
    let mut game = Game::new(vec![p0], &api);
    let front = game
        .current_zone()
        .iter()
        .find_map(|z| match z {
            Zone::FrontEnd { id, .. } => Some(*id),
            Zone::BackEnd { .. } => None,
        })
        .unwrap();
    let r = game.deal_player_action(
        PlayerAction::SetCard { card_id: 1, zone_id: front },
        ChoiceRes::Nothing,
    );
    assert_eq!(r, Err(ProcessError::BudgetExceeded));
}

#[test]
fn illegal_attacks_change_nothing() {
    let mut api = LuaApi::new();
    api.add_card(CardInfoBuilder::new("unit".to_string()).build());
    let p0 = Player { id: 0, player_desk: PlayerDesk(vec!["unit".to_string()]) };
    let p1 = Player { id: 1, player_desk: PlayerDesk(vec!["unit".to_string()]) };
    let mut game = Game::new(vec![p0, p1], &api);
    let hand_before = game.current_hand();
    // attacking from an empty slot is rejected
    game.deal_player_action(
        PlayerAction::AttackCard {
            source: Targeting::TargetZone(2),
            target: Targeting::TargetPlayerOpponent,
        },
        ChoiceRes::Nothing,
    )
    .unwrap();
    // attacking from a card instead of a slot is rejected
    game.deal_player_action(
        PlayerAction::AttackCard {
            source: Targeting::TargetCard(1),
            target: Targeting::TargetPlayerOpponent,
        },
        ChoiceRes::Nothing,
    )
    .unwrap();
    assert_eq!(game.current_hand(), hand_before);
    assert_eq!(game.current_real_point(), 0);
    assert_eq!(game.current_hp(), 6);
}

#[test]
fn unwired_windows_resolve_to_nothing() {
    let mut api = LuaApi::new();
    api.add_card(CardInfoBuilder::new("unit".to_string()).build());
    let p0 = Player { id: 0, player_desk: PlayerDesk(vec!["unit".to_string()]) };
    let mut game = Game::new(vec![p0], &api);
    let hand = game.current_hand();
    // the cost and attack windows are declared but fire no reactions yet
    game.emit_event(WindowEvent::Cost { card: 1 }).unwrap();
    game.emit_event(WindowEvent::Attack {
        source: Targeting::TargetZone(2),
        target: Targeting::TargetPlayerOpponent,
    })
    .unwrap();
    assert_eq!(game.current_hand(), hand);
    assert_eq!(game.current_hp(), 6);
}
