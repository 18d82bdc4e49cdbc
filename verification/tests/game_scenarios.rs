use uno_core::card::{Card, CardColor, CardSymbol};
use uno_core::deck::{full_card_set, Deck, CARDS_TOTAL_IN_GAME};
use uno_core::err::{DrawCardsError, GameStartError, PlayCardError};
use uno_core::game::{Game, GameStatus, CARDS_DEALT_TO_PLAYERS};
use uno_core::msg::WSMsg;
use uno_core::player::Player;

fn take_card(set: &mut Vec<Card>, color: CardColor, symbol: CardSymbol) -> Card {
    let idx = set
        .iter()
        .position(|c| c.color == color && c.symbol == symbol)
        .expect("card must exist in the full set");
    set.remove(idx)
}

/// A deterministic 2-player running game. Player "alice" (current) holds the
/// given cards, "bob" holds his; the discard top and the rest of the set form
/// the deck.
fn fixed_game(
    alice_cards: Vec<(CardColor, CardSymbol)>,
    bob_cards: Vec<(CardColor, CardSymbol)>,
    top: (CardColor, CardSymbol),
) -> Game {
    let mut set = full_card_set();
    let mut alice = Player::new("alice".to_string(), true);
    for (c, s) in alice_cards {
        alice.give_card(take_card(&mut set, c, s));
    }
    let mut bob = Player::new("bob".to_string(), false);
    for (c, s) in bob_cards {
        bob.give_card(take_card(&mut set, c, s));
    }
    let top_card = take_card(&mut set, top.0, top.1);
    let deck = Deck::from_piles(set, vec![top_card]);
    Game::new_running("fixed".to_string(), vec![alice, bob], deck, 0, true)
        .expect("the fixed state is legal")
}

#[test]
fn scenario_two_player_deal() {
    let mut game = Game::new("alice".to_string());
    game.add_player("bob".to_string());
    assert!(game.deck().draw_pile_size() >= CARDS_DEALT_TO_PLAYERS * 2 + 1);
    assert!(game.start().is_ok());
    assert_eq!(game.status(), GameStatus::Running);
    for p in game.players().iter() {
        assert_eq!(p.cards().len(), 7);
        assert_eq!(p.position(), None);
    }
    assert_eq!(game.deck().discard_pile_size(), 1);
    assert_eq!(
        game.deck().draw_pile_size(),
        CARDS_TOTAL_IN_GAME - 2 * CARDS_DEALT_TO_PLAYERS - 1
    );
}

#[test]
fn scenario_draw_two_forces_two_cards() {
    let mut game = fixed_game(
        vec![(CardColor::Red, CardSymbol::Draw2), (CardColor::Red, CardSymbol::Value(5))],
        vec![(CardColor::Blue, CardSymbol::Value(1)), (CardColor::Green, CardSymbol::Value(2))],
        (CardColor::Red, CardSymbol::Value(3)),
    );
    let draw2 = Card { color: CardColor::Red, symbol: CardSymbol::Draw2 };
    game.play_card("alice".to_string(), draw2, None).expect("a red Draw2 on a red top is legal");
    assert_eq!(game.active_cards().sum_active_draw_cards(), Some(2));
    let drawn = game.draw_cards("bob".to_string()).expect("bob has no Draw2, so he must draw");
    assert_eq!(drawn.len(), 2);
    assert!(!game.active_cards().are_cards_active());
}

#[test]
fn scenario_stacked_draw_two_sums_to_four() {
    let mut game = fixed_game(
        vec![(CardColor::Red, CardSymbol::Draw2), (CardColor::Red, CardSymbol::Value(5))],
        vec![(CardColor::Blue, CardSymbol::Draw2), (CardColor::Green, CardSymbol::Value(2))],
        (CardColor::Red, CardSymbol::Value(3)),
    );
    let red_draw2 = Card { color: CardColor::Red, symbol: CardSymbol::Draw2 };
    game.play_card("alice".to_string(), red_draw2, None).unwrap();
    assert_eq!(game.active_cards().sum_active_draw_cards(), Some(2));
    let blue_draw2 = Card { color: CardColor::Blue, symbol: CardSymbol::Draw2 };
    game.play_card("bob".to_string(), blue_draw2, None)
        .expect("stacking a Draw2 of another color is legal during a Draw2 chain");
    assert_eq!(game.active_cards().sum_active_draw_cards(), Some(4));
}

#[test]
fn scenario_no_such_card_leaves_hand_unchanged() {
    let mut game = fixed_game(
        vec![(CardColor::Red, CardSymbol::Value(5))],
        vec![(CardColor::Blue, CardSymbol::Value(1))],
        (CardColor::Red, CardSymbol::Value(3)),
    );
    let missing = Card { color: CardColor::Red, symbol: CardSymbol::Value(7) };
    let before: Vec<Card> = game.players()[0].cards().clone();
    match game.play_card("alice".to_string(), missing, None) {
        Err(PlayCardError::PlayerHasNoSuchCard(c)) => assert_eq!(c, missing),
        other => panic!("expected a no-such-card error, got {:?}", other),
    }
    assert_eq!(game.players()[0].cards(), &before);
}

#[test]
fn scenario_reverse_with_two_players() {
    let mut game = fixed_game(
        vec![(CardColor::Red, CardSymbol::Reverse), (CardColor::Red, CardSymbol::Value(5))],
        vec![(CardColor::Blue, CardSymbol::Value(1)), (CardColor::Green, CardSymbol::Value(2))],
        (CardColor::Red, CardSymbol::Value(3)),
    );
    assert!(game.is_clockwise);
    let reverse = Card { color: CardColor::Red, symbol: CardSymbol::Reverse };
    game.play_card("alice".to_string(), reverse, None).unwrap();
    assert!(!game.is_clockwise);
    // A repeat-turn reading of a two-player Reverse is sometimes expected,
    // but the turn rule steps one seat in the play direction, and with two
    // seats both directions land on the other player; so the turn passes to
    // bob even though the direction flipped.
    assert_eq!(game.get_current_player().unwrap().name(), "bob".to_string());
    assert_eq!(game.status(), GameStatus::Running);
}

#[test]
fn scenario_first_finisher_gets_rank_zero() {
    let mut game = fixed_game(
        vec![(CardColor::Red, CardSymbol::Value(5))],
        vec![(CardColor::Blue, CardSymbol::Value(1)), (CardColor::Green, CardSymbol::Value(2))],
        (CardColor::Red, CardSymbol::Value(3)),
    );
    let last = Card { color: CardColor::Red, symbol: CardSymbol::Value(5) };
    game.play_card("alice".to_string(), last, None).unwrap();
    let alice = game.find_player("alice".to_string()).unwrap();
    assert!(alice.is_finished());
    assert_eq!(alice.position(), Some(0));
    let finished = game.get_finished_players();
    assert_eq!(finished.len(), 1);
    assert_eq!(finished[0].name(), "alice".to_string());
    let messages = game.take_messages();
    assert!(messages
        .iter()
        .any(|m| matches!(&m.msg, WSMsg::Finish { player } if player == "alice")));
}

#[test]
fn game_finishes_when_turn_returns_to_finisher() {
    // bob finished... nobody else: alice alone cannot happen after start, so
    // play both hands down: alice empties hers, then bob empties his.
    let mut game = fixed_game(
        vec![(CardColor::Red, CardSymbol::Value(5))],
        vec![(CardColor::Red, CardSymbol::Value(1))],
        (CardColor::Red, CardSymbol::Value(3)),
    );
    game.play_card(
        "alice".to_string(),
        Card { color: CardColor::Red, symbol: CardSymbol::Value(5) },
        None,
    )
    .unwrap();
    assert_eq!(game.status(), GameStatus::Running);
    game.play_card(
        "bob".to_string(),
        Card { color: CardColor::Red, symbol: CardSymbol::Value(1) },
        None,
    )
    .unwrap();
    assert_eq!(game.status(), GameStatus::Finished);
    assert_eq!(game.get_finished_players().len(), 2);
}

#[test]
fn wild_is_always_legal_and_morphs_to_chosen_color() {
    let mut game = fixed_game(
        vec![(CardColor::Black, CardSymbol::Wild), (CardColor::Red, CardSymbol::Value(5))],
        vec![(CardColor::Blue, CardSymbol::Value(1))],
        (CardColor::Green, CardSymbol::Value(9)),
    );
    let wild = Card { color: CardColor::Black, symbol: CardSymbol::Wild };
    assert!(game.can_play_card(&wild));
    game.play_card("alice".to_string(), wild, Some(CardColor::Blue)).unwrap();
    let top = *game.deck().top_discard_card();
    assert_eq!(top, Card { color: CardColor::Blue, symbol: CardSymbol::Wild });
}

#[test]
fn wild_without_color_choice_stays_black() {
    let mut game = fixed_game(
        vec![(CardColor::Black, CardSymbol::Wild), (CardColor::Red, CardSymbol::Value(5))],
        vec![(CardColor::Blue, CardSymbol::Value(1))],
        (CardColor::Green, CardSymbol::Value(9)),
    );
    let wild = Card { color: CardColor::Black, symbol: CardSymbol::Wild };
    game.play_card("alice".to_string(), wild, None).unwrap();
    let top = *game.deck().top_discard_card();
    assert_eq!(top, Card { color: CardColor::Black, symbol: CardSymbol::Wild });
}

#[test]
fn draw_refused_while_a_play_is_available() {
    let mut game = fixed_game(
        vec![(CardColor::Red, CardSymbol::Value(5))],
        vec![(CardColor::Blue, CardSymbol::Value(1))],
        (CardColor::Red, CardSymbol::Value(3)),
    );
    match game.draw_cards("alice".to_string()) {
        Err(DrawCardsError::PlayerCanPlayInstead) => {},
        other => panic!("expected the can-play refusal, got {:?}", other),
    }
}

#[test]
fn draw_refused_during_a_skip_chain() {
    let mut game = fixed_game(
        vec![(CardColor::Red, CardSymbol::Skip), (CardColor::Red, CardSymbol::Value(5))],
        vec![(CardColor::Blue, CardSymbol::Value(1)), (CardColor::Green, CardSymbol::Value(2))],
        (CardColor::Red, CardSymbol::Value(3)),
    );
    let skip = Card { color: CardColor::Red, symbol: CardSymbol::Skip };
    game.play_card("alice".to_string(), skip, None).unwrap();
    match game.draw_cards("bob".to_string()) {
        Err(DrawCardsError::PlayerMustPlayInstead(top)) => assert_eq!(top, skip),
        other => panic!("expected the must-play refusal, got {:?}", other),
    }
}

#[test]
fn single_draw_takes_exactly_one_card() {
    let mut game = fixed_game(
        vec![(CardColor::Red, CardSymbol::Value(5))],
        vec![(CardColor::Blue, CardSymbol::Value(1))],
        (CardColor::Green, CardSymbol::Value(9)),
    );
    // alice holds only a red 5 against a green 9: no color, symbol or wild
    // match, so she must draw exactly one card.
    let before = game.deck().draw_pile_size();
    let drawn = game.draw_cards("alice".to_string()).unwrap();
    assert_eq!(drawn.len(), 1);
    assert_eq!(game.players()[0].cards().len(), 2);
    assert_eq!(game.deck().draw_pile_size(), before - 1);
    // the drawn card is the deck's former top: the fixed set ends on a
    // Black Draw4 and none was removed while building this state
    assert_eq!(drawn[0], Card { color: CardColor::Black, symbol: CardSymbol::Draw4 });
    assert_eq!(game.players()[0].cards()[1], drawn[0]);
}

#[test]
fn out_of_turn_and_unknown_player_are_rejected() {
    let mut game = fixed_game(
        vec![(CardColor::Red, CardSymbol::Value(5))],
        vec![(CardColor::Blue, CardSymbol::Value(1))],
        (CardColor::Red, CardSymbol::Value(3)),
    );
    let card = Card { color: CardColor::Blue, symbol: CardSymbol::Value(1) };
    assert!(matches!(
        game.play_card("bob".to_string(), card, None),
        Err(PlayCardError::PlayerTurnError(_))
    ));
    assert!(matches!(
        game.play_card("carol".to_string(), card, None),
        Err(PlayCardError::PlayerExistError(_))
    ));
}

#[test]
fn start_twice_is_rejected_and_too_many_players_exhaust_the_deck() {
    let mut game = Game::new("p0".to_string());
    game.add_player("p1".to_string());
    game.start().unwrap();
    assert_eq!(game.start(), Err(GameStartError::GameAlreadyStarted));

    let mut big = Game::new("p0".to_string());
    for i in 1..16 {
        big.add_player(format!("p{}", i));
    }
    assert_eq!(big.start(), Err(GameStartError::DeckEmptyWhenStartingGame));
}

#[test]
fn start_broadcasts_one_status_per_player() {
    let mut game = Game::new("alice".to_string());
    game.add_player("bob".to_string());
    game.start().unwrap();
    let messages = game.take_messages();
    assert_eq!(messages.len(), 2);
    for m in messages.iter() {
        assert!(matches!(&m.msg, WSMsg::Status { recipient } if *recipient == m.recipient));
    }
    assert!(game.take_messages().is_empty());
}

#[test]
fn end_turn_skips_finished_players() {
    let mut game = fixed_game(
        vec![(CardColor::Red, CardSymbol::Value(5))],
        vec![(CardColor::Blue, CardSymbol::Value(1)), (CardColor::Green, CardSymbol::Value(2))],
        (CardColor::Red, CardSymbol::Value(3)),
    );
    let last = Card { color: CardColor::Red, symbol: CardSymbol::Value(5) };
    game.play_card("alice".to_string(), last, None).unwrap();
    // alice is finished; the turn is bob's, and advancing it again loops
    // over the finished seat straight back to bob.
    assert_eq!(game.get_current_player().unwrap().name(), "bob".to_string());
    assert!(game.end_turn());
    assert_eq!(game.get_current_player().unwrap().name(), "bob".to_string());
}

#[test]
fn illegal_card_is_rejected_with_the_top_card() {
    let mut game = fixed_game(
        vec![(CardColor::Red, CardSymbol::Value(5))],
        vec![(CardColor::Blue, CardSymbol::Value(1))],
        (CardColor::Green, CardSymbol::Value(9)),
    );
    let red5 = Card { color: CardColor::Red, symbol: CardSymbol::Value(5) };
    match game.play_card("alice".to_string(), red5, None) {
        Err(PlayCardError::CardCannotBePlayed(card, top)) => {
            assert_eq!(card, red5);
            assert_eq!(top, Card { color: CardColor::Green, symbol: CardSymbol::Value(9) });
        },
        other => panic!("expected a cannot-play error, got {:?}", other),
    }
}

#[test]
fn finishing_the_game_broadcasts_finish_and_status() {
    let mut game = fixed_game(
        vec![(CardColor::Red, CardSymbol::Value(5))],
        vec![(CardColor::Red, CardSymbol::Value(1))],
        (CardColor::Red, CardSymbol::Value(3)),
    );
    game.play_card(
        "alice".to_string(),
        Card { color: CardColor::Red, symbol: CardSymbol::Value(5) },
        None,
    )
    .unwrap();
    game.take_messages();
    game.play_card(
        "bob".to_string(),
        Card { color: CardColor::Red, symbol: CardSymbol::Value(1) },
        None,
    )
    .unwrap();
    let messages = game.take_messages();
    // one play-card event, one finish event and one final status, each
    // addressed to both seated players, in that order
    assert_eq!(messages.len(), 6);
    for k in 0..2 {
        assert!(matches!(&messages[k].msg, WSMsg::PlayCard { .. }));
        assert!(
            matches!(&messages[2 + k].msg, WSMsg::Finish { player } if player == "bob")
        );
        assert!(matches!(
            &messages[4 + k].msg,
            WSMsg::Status { recipient } if *recipient == messages[4 + k].recipient
        ));
    }
}
