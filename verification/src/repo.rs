use vstd::prelude::*;
use crate::game::Game;
use crate::game::GameStatus;

verus! {

/// An in-memory store of the games this process hosts; concurrency-safe
/// lookup around it is the surrounding service's concern.
pub struct InMemoryGameRepo {
    pub games: Vec<Game>,
    pub port: String,
}

impl InMemoryGameRepo {
    pub fn new(games: Vec<Game>, port: String) -> (r: InMemoryGameRepo)
        ensures
            r.games@ == games@,
            r.port == port,
    {
        InMemoryGameRepo { games, port }
    }

    /// Creates a fresh lobby for the author, stores it, and returns it: the
    /// stored entry is appended at the end and equals the returned game.
    pub fn create_game(&mut self, author_name: String) -> (g: Game)
        ensures
            g@.wf(),
            g@.status == GameStatus::Lobby,
            g@.players.len() == 1,
            g@.players[0].name == author_name@,
            final(self).games@.len() == old(self).games@.len() + 1,
            final(self).games@.drop_last() == old(self).games@,
            final(self).games@.last()@ == g@,
    {
        let game = Game::new(author_name);
        self.games.push(game.clone());
        proof {
            assert(self.games@.drop_last() =~= old(self).games@);
        }
        game
    }

    pub fn games_count(&self) -> (r: usize)
        ensures
            r == self.games@.len(),
    {
        self.games.len()
    }
}

} // verus!
