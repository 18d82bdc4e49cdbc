use vstd::prelude::*;
use crate::card::Card;
use crate::card::CardSymbol;
use crate::err::StackError;

verus! {

/// The total forced-draw amount carried by a chain: 2 per Draw2 and 4 per
/// Draw4. Chains are uniform in symbol, so only the first card's symbol
/// decides the rate.
pub open spec fn chain_draw_sum(chain: Seq<Card>) -> int {
    if chain.len() > 0 && chain[0].symbol == CardSymbol::Draw2 {
        2 * chain.len() as int
    } else if chain.len() > 0 && chain[0].symbol == CardSymbol::Draw4 {
        4 * chain.len() as int
    } else {
        0
    }
}

/// A chain is well formed when every card shares the first card's symbol.
pub open spec fn chain_wf(chain: Seq<Card>) -> bool {
    forall|i: int| 0 <= i < chain.len() ==> #[trigger] chain[i].symbol == chain[0].symbol
}

/// Single active chain family: a well-formed chain never holds cards of two
/// different symbols at once. `new` yields an empty (well-formed) chain, and
/// `push` and `clear` keep well-formedness, so every chain the library
/// builds satisfies this.
pub proof fn lemma_chain_single_family(chain: Seq<Card>)
    requires
        chain_wf(chain),
    ensures
        forall|i: int, j: int|
            0 <= i < chain.len() && 0 <= j < chain.len() ==> (#[trigger] chain[i]).symbol == (
            #[trigger] chain[j]).symbol,
{
    assert(forall|i: int|
        0 <= i < chain.len() ==> (#[trigger] chain[i]).symbol == chain[0].symbol);
}

/// An unresolved forced-response chain of stackable effect cards. All cards
/// in the chain share one symbol; empty means no pending forced response.
#[derive(Debug)]
pub struct ActiveCards {
    cards: Vec<Card>,
}


impl View for ActiveCards {
    type V = Seq<Card>;

    closed spec fn view(&self) -> Seq<Card> {
        self.cards@
    }
}

impl Clone for ActiveCards {
    fn clone(&self) -> (r: Self)
        ensures
            r@ == self@,
    {
        ActiveCards { cards: crate::card::copy_cards(&self.cards) }
    }
}

impl ActiveCards {
    pub fn new() -> (r: ActiveCards)
        ensures
            r@ == Seq::<Card>::empty(),
    {
        ActiveCards { cards: Vec::new() }
    }

    pub fn are_cards_active(&self) -> (r: bool)
        ensures
            r == (self@.len() > 0),
    {
        self.cards.len() > 0
    }

    /// The symbol the whole chain shares, or none for an empty chain.
    pub fn active_symbol(&self) -> (r: Option<CardSymbol>)
        ensures
            self@.len() == 0 ==> r is None,
            self@.len() > 0 ==> r == Some(self@[0].symbol),
    {
        if self.cards.len() == 0 {
            None
        } else {
            Some(self.cards[0].symbol)
        }
    }

    /// Adopts the card's symbol when the chain is empty; extends the chain
    /// when the symbol matches; rejects a mismatched symbol and leaves the
    /// chain unchanged.
    pub fn push(&mut self, card: Card) -> (r: Result<(), StackError>)
        requires
            chain_wf(old(self)@),
        ensures
            chain_wf(final(self)@),
            r is Ok <==> (old(self)@.len() == 0 || card.symbol == old(self)@[0].symbol),
            r is Ok ==> final(self)@ == old(self)@.push(card),
            r is Err ==> final(self)@ == old(self)@ && r == Err::<(), StackError>(
                StackError::IncompatibleSymbol(card.symbol, old(self)@[0].symbol),
            ),
    {
        if self.cards.len() == 0 {
            self.cards.push(card);
            Ok(())
        } else {
            let active = self.cards[0].symbol;
            if card.symbol == active {
                self.cards.push(card);
                Ok(())
            } else {
                Err(StackError::IncompatibleSymbol(card.symbol, active))
            }
        }
    }

    /// The summed forced-draw amount, defined only for a draw-family chain.
    /// A Skip chain (or an empty one) has nothing to sum.
    pub fn sum_active_draw_cards(&self) -> (r: Option<u32>)
        requires
            chain_wf(self@),
            4 * self@.len() <= u32::MAX,
        ensures
            r is Some <==> (self@.len() > 0 && (self@[0].symbol == CardSymbol::Draw2
                || self@[0].symbol == CardSymbol::Draw4)),
            r matches Some(n) ==> n == chain_draw_sum(self@),
    {
        if self.cards.len() == 0 {
            return None;
        }
        let l = self.cards.len() as u32;
        match self.cards[0].symbol {
            CardSymbol::Draw2 => Some(2 * l),
            CardSymbol::Draw4 => Some(4 * l),
            _ => None,
        }
    }

    pub fn clear(&mut self)
        ensures
            final(self)@ == Seq::<Card>::empty(),
    {
        self.cards.clear()
    }

    pub fn len(&self) -> (r: usize)
        ensures
            r == self@.len(),
    {
        self.cards.len()
    }
}

} // verus!
