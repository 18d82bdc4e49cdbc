use vstd::prelude::*;
use crate::card::Card;
use crate::card::CardSymbol;

verus! {

/// Failures of `Game::start`.
#[derive(Debug, Clone, PartialEq, Eq)]
pub enum GameStartError {
    GameAlreadyStarted,
    DeckEmptyWhenStartingGame,
}

/// A named player is not seated in the game.
#[derive(Debug, Clone, PartialEq, Eq)]
pub enum PlayerExistError {
    NoSuchPlayer(String),
}

/// The acting player is not the one whose turn it is.
#[derive(Debug, Clone, PartialEq, Eq)]
pub enum PlayerTurnError {
    NoOneIsPlaying,
    PlayerOutOfTurn(String),
}

/// A personalized status message could not be built.
#[derive(Debug, Clone, PartialEq, Eq)]
pub enum CreateStatusError {
    NoSuchRecipient(String),
}

/// Failures of `Game::play_card`.
#[derive(Debug, Clone, PartialEq, Eq)]
pub enum PlayCardError {
    PlayerHasNoSuchCard(Card),
    CardCannotBePlayed(Card, Card),
    PlayerTurnError(PlayerTurnError),
    PlayerExistError(PlayerExistError),
    CreateStatusError(CreateStatusError),
    SaidUnoWhenShouldNotHave,
}

/// Failures of `Game::draw_cards`.
#[derive(Debug, Clone, PartialEq, Eq)]
pub enum DrawCardsError {
    PlayerExistError(PlayerExistError),
    PlayerTurnError(PlayerTurnError),
    PlayerCanPlayInstead,
    PlayerMustPlayInstead(Card),
}

/// The player-facing view of a draw refusal.
pub type PlayerDrawError = DrawCardsError;

/// An attempt to extend an active chain with a card of another symbol.
#[derive(Debug, Clone, PartialEq, Eq)]
pub enum StackError {
    IncompatibleSymbol(CardSymbol, CardSymbol),
}

} // verus!
