use vstd::prelude::*;
use crate::card::Card;
use crate::err::PlayCardError;

verus! {

/// The mathematical content of a player: a name, a hand, whether the player
/// created the game, and the optional finish rank.
pub ghost struct PlayerV {
    pub name: Seq<char>,
    pub hand: Seq<Card>,
    pub is_author: bool,
    pub position: Option<usize>,
}

impl PlayerV {
    /// A player is finished exactly when the hand is empty.
    pub open spec fn finished(self) -> bool {
        self.hand.len() == 0
    }
}

/// True of index `i` when it is the first occurrence of `card` in `hand`.
pub open spec fn is_first_card_index(hand: Seq<Card>, card: Card, i: int) -> bool {
    &&& 0 <= i < hand.len()
    &&& hand[i] == card
    &&& forall|j: int| 0 <= j < i ==> hand[j] != card
}

/// One seated player: a unique name within the game, an ordered hand (order
/// only matters for stable display), authorship, and the finish rank that is
/// set the instant the hand becomes empty.
#[derive(Debug)]
pub struct Player {
    name: String,
    cards: Vec<Card>,
    pub is_author: bool,
    position: Option<usize>,
}

impl View for Player {
    type V = PlayerV;

    closed spec fn view(&self) -> PlayerV {
        PlayerV {
            name: self.name@,
            hand: self.cards@,
            is_author: self.is_author,
            position: self.position,
        }
    }
}

impl Clone for Player {
    fn clone(&self) -> (r: Self)
        ensures
            r@ == self@,
    {
        Player {
            name: self.name.clone(),
            cards: crate::card::copy_cards(&self.cards),
            is_author: self.is_author,
            position: self.position,
        }
    }
}

impl Player {
    pub fn new(name: String, is_author: bool) -> (p: Player)
        ensures
            p@ == (PlayerV {
                name: name@,
                hand: Seq::<Card>::empty(),
                is_author,
                position: None,
            }),
    {
        Player { name, cards: Vec::new(), is_author, position: None }
    }

    /// Whether this player created the game.
    pub fn is_author(&self) -> (r: bool)
        ensures
            r == self@.is_author,
    {
        self.is_author
    }

    pub fn name(&self) -> (r: String)
        ensures
            r@ == self@.name,
    {
        self.name.clone()
    }

    pub fn cards(&self) -> (r: &Vec<Card>)
        ensures
            r@ == self@.hand,
    {
        &self.cards
    }

    pub fn give_card(&mut self, card: Card)
        ensures
            final(self)@ == (PlayerV { hand: old(self)@.hand.push(card), ..old(self)@ }),
    {
        self.cards.push(card);
    }

    /// Empties the hand; used when a fresh game re-deals.
    pub fn drop_all_cards(&mut self)
        ensures
            final(self)@ == (PlayerV { hand: Seq::<Card>::empty(), ..old(self)@ }),
    {
        self.cards.clear();
    }

    pub fn clear_position(&mut self)
        ensures
            final(self)@ == (PlayerV { position: None, ..old(self)@ }),
    {
        self.position = None;
    }

    /// Removes and returns the first hand card equal to the wanted card by
    /// color and symbol; fails, leaving the hand unchanged, when the player
    /// holds no such card.
    pub fn play_card_by_eq(&mut self, wanted_card: Card) -> (r: Result<Card, PlayCardError>)
        ensures
            r is Ok <==> old(self)@.hand.contains(wanted_card),
            r matches Ok(c) ==> c == wanted_card && exists|i: int|
                is_first_card_index(old(self)@.hand, wanted_card, i) && final(self)@ == (PlayerV {
                    hand: old(self)@.hand.remove(i),
                    ..old(self)@
                }),
            r is Err ==> final(self)@ == old(self)@ && r == Err::<Card, PlayCardError>(
                PlayCardError::PlayerHasNoSuchCard(wanted_card),
            ),
    {
        let n = self.cards.len();
        for i in 0..n
            invariant
                self@ == old(self)@,
                n == self.cards@.len(),
                forall|j: int| 0 <= j < i ==> self.cards@[j] != wanted_card,
        {
            if self.cards[i] == wanted_card {
                proof {
                    assert(is_first_card_index(self@.hand, wanted_card, i as int));
                }
                let c = self.cards.remove(i);
                return Ok(c);
            }
        }
        proof {
            assert(forall|j: int|
                0 <= j < old(self)@.hand.len() ==> old(self)@.hand[j] != wanted_card);
        }
        Err(PlayCardError::PlayerHasNoSuchCard(wanted_card))
    }

    /// A player is finished exactly when the hand is empty.
    pub fn is_finished(&self) -> (r: bool)
        ensures
            r == self@.finished(),
    {
        self.cards.len() == 0
    }

    pub fn position(&self) -> (r: Option<usize>)
        ensures
            r == self@.position,
    {
        self.position
    }

    /// Records the finish rank. The rank is set exactly once per game; a
    /// second call would be a programming error, so it is ruled out here.
    pub fn set_position(&mut self, position: usize)
        requires
            old(self)@.position is None,
        ensures
            final(self)@ == (PlayerV { position: Some(position), ..old(self)@ }),
    {
        self.position = Some(position);
    }
}

} // verus!
