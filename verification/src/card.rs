use vstd::prelude::*;

verus! {

/// One of the four playable colors, or Black for the wild family.
#[derive(Clone, Copy, Debug, PartialEq, Eq, Structural)]
pub enum CardColor {
    Red,
    Yellow,
    Green,
    Blue,
    Black,
}

/// The face of a card: a numeric value or one of the effect symbols.
#[derive(Clone, Copy, Debug, PartialEq, Eq, Structural)]
pub enum CardSymbol {
    Value(u8),
    Skip,
    Reverse,
    Draw2,
    Draw4,
    Wild,
}

/// An immutable playing card: a color paired with a symbol.
#[derive(Clone, Copy, Debug, PartialEq, Eq, Structural)]
pub struct Card {
    pub color: CardColor,
    pub symbol: CardSymbol,
}

impl Card {
    /// A card is well formed when a numeric face stays in the 0..=9 range.
    pub open spec fn wf(self) -> bool {
        self.symbol matches CardSymbol::Value(v) ==> v <= 9
    }

    /// Cards of the wild family (Wild, Draw4) are dealt with color Black.
    pub open spec fn is_wild_family(self) -> bool {
        self.symbol == CardSymbol::Wild || self.symbol == CardSymbol::Draw4
    }

    pub fn new(color: CardColor, symbol: CardSymbol) -> (c: Card)
        ensures
            c == (Card { color, symbol }),
    {
        Card { color, symbol }
    }

    /// True for cards that are dealt Black and only gain a color when played.
    pub fn should_be_black(&self) -> (r: bool)
        ensures
            r == self.is_wild_family(),
    {
        match self.symbol {
            CardSymbol::Wild => true,
            CardSymbol::Draw4 => true,
            _ => false,
        }
    }

    /// Recolors a Black card at the moment it is played. Morphing a card that
    /// is not Black fails, as does choosing Black as the replacement color.
    pub fn morph_black_card(self, new_color: CardColor) -> (r: Option<Card>)
        ensures
            r is Some <==> (self.color == CardColor::Black && new_color != CardColor::Black),
            r matches Some(c) ==> c == (Card { color: new_color, symbol: self.symbol }),
    {
        if self.color == CardColor::Black && new_color != CardColor::Black {
            Some(Card { color: new_color, symbol: self.symbol })
        } else {
            None
        }
    }
}

/// A fresh vector holding the same cards.
pub fn copy_cards(cards: &Vec<Card>) -> (r: Vec<Card>)
    ensures
        r@ == cards@,
{
    let mut r: Vec<Card> = Vec::new();
    let n = cards.len();
    for i in 0..n
        invariant
            n == cards@.len(),
            r@ == cards@.take(i as int),
    {
        r.push(cards[i]);
        proof {
            assert(r@ =~= cards@.take((i + 1) as int));
        }
    }
    proof {
        assert(cards@.take(n as int) =~= cards@);
    }
    r
}

} // verus!
