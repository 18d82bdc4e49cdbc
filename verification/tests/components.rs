use uno_core::active_cards::ActiveCards;
use uno_core::ai::AiError;
use uno_core::card::{Card, CardColor, CardSymbol};
use uno_core::deck::{full_card_set, Deck, CARDS_TOTAL_IN_GAME};
use uno_core::err::{CreateStatusError, PlayCardError, StackError};
use uno_core::game::Game;
use uno_core::player::Player;
use uno_core::repo::InMemoryGameRepo;
use uno_core::response::{ErrMsg, TypeOfError, TypedErrMsg};
use uno_core::server_repo::{
    AddGameServerResult, GameServerRepo, GetGameServerError, ServerId,
};

#[test]
fn full_set_composition() {
    let set = full_card_set();
    assert_eq!(set.len(), CARDS_TOTAL_IN_GAME);
    let wilds = set.iter().filter(|c| c.symbol == CardSymbol::Wild).count();
    let draw4s = set.iter().filter(|c| c.symbol == CardSymbol::Draw4).count();
    let reds = set.iter().filter(|c| c.color == CardColor::Red).count();
    let blacks = set.iter().filter(|c| c.color == CardColor::Black).count();
    assert_eq!(wilds, 4);
    assert_eq!(draw4s, 4);
    assert_eq!(reds, 25);
    assert_eq!(blacks, 8);
}

#[test]
fn fresh_deck_holds_the_full_set() {
    // Drawing everything out of a fresh deck must yield the same card
    // multiset as the deterministic full set: the shuffle rearranges only.
    let mut deck = Deck::new();
    assert_eq!(deck.draw_pile_size(), CARDS_TOTAL_IN_GAME);
    assert_eq!(deck.discard_pile_size(), 0);
    let mut drawn: Vec<Card> = Vec::new();
    while let Some(c) = deck.draw() {
        drawn.push(c);
    }
    assert_eq!(drawn.len(), CARDS_TOTAL_IN_GAME);
    let reference = full_card_set();
    for card in reference.iter() {
        let want = reference.iter().filter(|c| *c == card).count();
        let got = drawn.iter().filter(|c| *c == card).count();
        assert_eq!(want, got);
    }
}

#[test]
fn deck_reshuffles_discard_minus_top() {
    let top = Card { color: CardColor::Red, symbol: CardSymbol::Value(1) };
    let buried = Card { color: CardColor::Blue, symbol: CardSymbol::Value(2) };
    let mut deck = Deck::from_piles(vec![], vec![buried, top]);
    let drawn = deck.draw().unwrap();
    assert_eq!(drawn, buried);
    assert_eq!(deck.discard_pile_size(), 1);
    assert_eq!(*deck.top_discard_card(), top);
    assert_eq!(deck.draw(), None);
}

#[test]
fn active_cards_reject_mismatched_symbols() {
    let mut chain = ActiveCards::new();
    assert!(!chain.are_cards_active());
    assert_eq!(chain.active_symbol(), None);
    let skip = Card { color: CardColor::Red, symbol: CardSymbol::Skip };
    chain.push(skip).unwrap();
    assert_eq!(chain.active_symbol(), Some(CardSymbol::Skip));
    assert_eq!(chain.sum_active_draw_cards(), None);
    let draw2 = Card { color: CardColor::Red, symbol: CardSymbol::Draw2 };
    match chain.push(draw2) {
        Err(StackError::IncompatibleSymbol(got, active)) => {
            assert_eq!(got, CardSymbol::Draw2);
            assert_eq!(active, CardSymbol::Skip);
        },
        other => panic!("expected an incompatible-symbol error, got {:?}", other),
    }
    assert_eq!(chain.len(), 1);
    chain.clear();
    assert!(!chain.are_cards_active());
}

#[test]
fn draw4_chain_sums_four_per_card() {
    let mut chain = ActiveCards::new();
    let d4 = Card { color: CardColor::Black, symbol: CardSymbol::Draw4 };
    chain.push(d4).unwrap();
    chain.push(d4).unwrap();
    assert_eq!(chain.sum_active_draw_cards(), Some(8));
}

#[test]
fn morphing_rules() {
    let wild = Card { color: CardColor::Black, symbol: CardSymbol::Wild };
    assert!(wild.should_be_black());
    assert_eq!(
        wild.morph_black_card(CardColor::Green),
        Some(Card { color: CardColor::Green, symbol: CardSymbol::Wild })
    );
    assert_eq!(wild.morph_black_card(CardColor::Black), None);
    let red5 = Card { color: CardColor::Red, symbol: CardSymbol::Value(5) };
    assert!(!red5.should_be_black());
    assert_eq!(red5.morph_black_card(CardColor::Blue), None);
}

#[test]
fn player_hand_bookkeeping() {
    let mut p = Player::new("zoe".to_string(), false);
    assert!(p.is_finished());
    let c = Card { color: CardColor::Red, symbol: CardSymbol::Value(5) };
    p.give_card(c);
    assert!(!p.is_finished());
    let missing = Card { color: CardColor::Blue, symbol: CardSymbol::Value(5) };
    assert!(matches!(
        p.play_card_by_eq(missing),
        Err(PlayCardError::PlayerHasNoSuchCard(_))
    ));
    assert_eq!(p.play_card_by_eq(c).unwrap(), c);
    assert!(p.is_finished());
    p.set_position(3);
    assert_eq!(p.position(), Some(3));
    p.clear_position();
    assert_eq!(p.position(), None);
}

#[test]
fn game_ids_and_authors() {
    let game = Game::new("ann".to_string());
    assert_eq!(game.id.chars().count(), 10);
    let author = game.find_author().unwrap();
    assert_eq!(author.name(), "ann".to_string());
    assert!(author.is_author());
    assert!(game.find_player("nobody".to_string()).is_none());
}

#[test]
fn status_msg_needs_a_seated_recipient() {
    let game = Game::new("ann".to_string());
    assert!(game.status_msg("ann".to_string()).is_ok());
    assert_eq!(
        game.status_msg("ghost".to_string()),
        Err(CreateStatusError::NoSuchRecipient("ghost".to_string()))
    );
}

#[test]
fn repo_stores_created_games() {
    let mut repo = InMemoryGameRepo::new(vec![], "9000".to_string());
    let game = repo.create_game("ann".to_string());
    assert_eq!(repo.games_count(), 1);
    assert_eq!(game.players()[0].name(), "ann".to_string());
}

#[test]
fn server_repo_round_trip() {
    let mut repo = GameServerRepo::new();
    assert!(matches!(repo.add("10.0.0.1:9000"), AddGameServerResult::ServerAdded));
    assert!(matches!(
        repo.add("10.0.0.1:9000"),
        AddGameServerResult::ServerAlreadyRegistered
    ));
    assert_eq!(repo.get(ServerId::new(0)), Ok("10.0.0.1:9000".to_string()));
    assert!(matches!(
        repo.get(ServerId::new(5)),
        Err(GetGameServerError::NotFound)
    ));
}

#[test]
fn response_payloads_carry_their_texts() {
    let typed = TypedErrMsg::new_from_scratch("CANNOT_DRAW", "try playing".to_string());
    assert_eq!(typed.type_of_error, "CANNOT_DRAW".to_string());
    assert_eq!(typed.message, "try playing".to_string());
    let err = AiError::CreateStatusError(CreateStatusError::NoSuchRecipient(
        "ghost".to_string(),
    ));
    let typed2 = TypedErrMsg::new("STATUS", &err);
    assert_eq!(typed2.type_of_error, "STATUS".to_string());
    assert!(!typed2.message.is_empty());
    let msg = ErrMsg::new("boom");
    assert_eq!(msg.msg, "boom".to_string());
    assert!(!ErrMsg::from(&err).msg.is_empty());
    assert_eq!(
        TypeOfError::GameNotRunning.into_response_string(),
        "GAME_NOT_RUNNING".to_string()
    );
    assert_eq!(
        TypeOfError::CannotDraw.into_response_string(),
        "CANNOT_DRAW".to_string()
    );
}

#[test]
fn new_running_rejects_illegal_states() {
    // A state missing cards from the full set is refused.
    let p = {
        let mut p = Player::new("ann".to_string(), true);
        p.give_card(Card { color: CardColor::Red, symbol: CardSymbol::Value(5) });
        p
    };
    let deck = Deck::from_piles(vec![], vec![Card {
        color: CardColor::Green,
        symbol: CardSymbol::Value(9),
    }]);
    assert!(Game::new_running("x".to_string(), vec![p], deck, 0, true).is_none());
}
