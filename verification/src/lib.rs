pub mod card;
pub mod err;
pub mod msg;
pub mod active_cards;
pub mod deck;
pub mod player;
pub mod game;
pub mod ai;
pub mod response;
pub mod repo;
pub mod server_repo;
mod rnd;
