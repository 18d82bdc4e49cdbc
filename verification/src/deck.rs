use vstd::prelude::*;
use crate::card::Card;
use crate::card::CardColor;
use crate::card::CardSymbol;
use crate::rnd;

verus! {

/// Size of the full fixed card set a game is played with.
pub const CARDS_TOTAL_IN_GAME: usize = 108;

/// The mathematical content of a deck: two disjoint ordered piles. The top
/// of each pile is its last element.
pub ghost struct DeckV {
    pub draw_pile: Seq<Card>,
    pub discard_pile: Seq<Card>,
}

impl DeckV {
    /// How many cards the deck holds over both piles.
    pub open spec fn total(self) -> int {
        self.draw_pile.len() + self.discard_pile.len() as int
    }
}

/// Every card of a freshly built set is well formed, and the wild family is
/// dealt with color Black.
pub open spec fn cards_dealt_wf(s: Seq<Card>) -> bool {
    forall|i: int|
        0 <= i < s.len() ==> (#[trigger] s[i]).wf() && (s[i].is_wild_family()
            ==> s[i].color == CardColor::Black)
}


/// How many copies of a symbol each of the four playable colors carries:
/// one 0, two of each value 1..=9, and two each of Skip, Reverse and Draw2.
pub open spec fn per_color_count(symbol: CardSymbol) -> int {
    match symbol {
        CardSymbol::Value(v) => if v == 0 {
            1
        } else if v <= 9 {
            2
        } else {
            0
        },
        CardSymbol::Skip => 2,
        CardSymbol::Reverse => 2,
        CardSymbol::Draw2 => 2,
        _ => 0,
    }
}

/// How many copies of each card the full fixed set holds: four Black Wilds,
/// four Black Draw4s, and the per-color composition for each playable color.
pub open spec fn full_set_count(card: Card) -> int {
    if card.color == CardColor::Black {
        if card.symbol == CardSymbol::Wild || card.symbol == CardSymbol::Draw4 {
            4
        } else {
            0
        }
    } else {
        per_color_count(card.symbol)
    }
}

/// How many copies of a card the deck holds over both piles.
pub open spec fn deck_count(d: DeckV, b: Card) -> int {
    d.draw_pile.to_multiset().count(b) + d.discard_pile.to_multiset().count(b) as int
}

/// The empty sequence holds no copies of anything.
pub proof fn lemma_empty_count(b: Card)
    ensures
        Seq::<Card>::empty().to_multiset().count(b) == 0,
{
    Seq::<Card>::empty().to_multiset_ensures();
    assert(!Seq::<Card>::empty().contains(b));
}

/// Appending a card raises its multiset count by one and no other.
pub broadcast proof fn lemma_count_push(s: Seq<Card>, a: Card, b: Card)
    ensures
        #[trigger] s.push(a).to_multiset().count(b) == s.to_multiset().count(b) + (if a == b {
            1int
        } else {
            0int
        }),
{
    s.to_multiset_ensures();
    broadcast use vstd::multiset::group_multiset_axioms;

}

/// Pushes one playable color's 25 cards of the fixed composition.
#[verifier::rlimit(100)]
#[verifier::spinoff_prover]
fn push_color_block(v: &mut Vec<Card>, color: CardColor)
    requires
        color != CardColor::Black,
    ensures
        final(v)@.len() == old(v)@.len() + 25,
        forall|b: Card|
            #[trigger] final(v)@.to_multiset().count(b) == old(v)@.to_multiset().count(b) + (
            if b.color == color {
                per_color_count(b.symbol)
            } else {
                0int
            }),
{
    v.push(Card::new(color, CardSymbol::Value(0)));
    v.push(Card::new(color, CardSymbol::Value(1)));
    v.push(Card::new(color, CardSymbol::Value(1)));
    v.push(Card::new(color, CardSymbol::Value(2)));
    v.push(Card::new(color, CardSymbol::Value(2)));
    v.push(Card::new(color, CardSymbol::Value(3)));
    v.push(Card::new(color, CardSymbol::Value(3)));
    v.push(Card::new(color, CardSymbol::Value(4)));
    v.push(Card::new(color, CardSymbol::Value(4)));
    v.push(Card::new(color, CardSymbol::Value(5)));
    v.push(Card::new(color, CardSymbol::Value(5)));
    v.push(Card::new(color, CardSymbol::Value(6)));
    v.push(Card::new(color, CardSymbol::Value(6)));
    v.push(Card::new(color, CardSymbol::Value(7)));
    v.push(Card::new(color, CardSymbol::Value(7)));
    v.push(Card::new(color, CardSymbol::Value(8)));
    v.push(Card::new(color, CardSymbol::Value(8)));
    v.push(Card::new(color, CardSymbol::Value(9)));
    v.push(Card::new(color, CardSymbol::Value(9)));
    v.push(Card::new(color, CardSymbol::Skip));
    v.push(Card::new(color, CardSymbol::Skip));
    v.push(Card::new(color, CardSymbol::Reverse));
    v.push(Card::new(color, CardSymbol::Reverse));
    v.push(Card::new(color, CardSymbol::Draw2));
    v.push(Card::new(color, CardSymbol::Draw2));
    proof {
        broadcast use lemma_count_push;

    }
}

/// Owns the draw pile and the discard pile; produces cards on draw and
/// accepts played cards onto the discard top.
#[derive(Debug)]
pub struct Deck {
    draw_pile: Vec<Card>,
    discard_pile: Vec<Card>,
}

impl View for Deck {
    type V = DeckV;

    closed spec fn view(&self) -> DeckV {
        DeckV { draw_pile: self.draw_pile@, discard_pile: self.discard_pile@ }
    }
}

impl Clone for Deck {
    fn clone(&self) -> (r: Self)
        ensures
            r@ == self@,
    {
        Deck {
            draw_pile: crate::card::copy_cards(&self.draw_pile),
            discard_pile: crate::card::copy_cards(&self.discard_pile),
        }
    }
}

/// Builds the full fixed card set in a deterministic order: per color one 0,
/// two of each value 1..=9, two Skip, two Reverse and two Draw2; then four
/// Wild and four Draw4, all Black.
#[verifier::rlimit(100)]
#[verifier::spinoff_prover]
pub fn full_card_set() -> (v: Vec<Card>)
    ensures
        v@.len() == CARDS_TOTAL_IN_GAME,
        forall|b: Card| #[trigger] v@.to_multiset().count(b) == full_set_count(b),
        cards_dealt_wf(v@),
{
    let mut v: Vec<Card> = Vec::new();
    push_color_block(&mut v, CardColor::Red);
    push_color_block(&mut v, CardColor::Yellow);
    push_color_block(&mut v, CardColor::Green);
    push_color_block(&mut v, CardColor::Blue);
    v.push(Card::new(CardColor::Black, CardSymbol::Wild));
    v.push(Card::new(CardColor::Black, CardSymbol::Draw4));
    v.push(Card::new(CardColor::Black, CardSymbol::Wild));
    v.push(Card::new(CardColor::Black, CardSymbol::Draw4));
    v.push(Card::new(CardColor::Black, CardSymbol::Wild));
    v.push(Card::new(CardColor::Black, CardSymbol::Draw4));
    v.push(Card::new(CardColor::Black, CardSymbol::Wild));
    v.push(Card::new(CardColor::Black, CardSymbol::Draw4));
    proof {
        broadcast use lemma_count_push;
        broadcast use vstd::multiset::group_multiset_axioms;

        Seq::<Card>::empty().to_multiset_ensures();
        assert forall|b: Card| #[trigger] v@.to_multiset().count(b) == full_set_count(b) by {
            assert(!Seq::<Card>::empty().contains(b));
            assert(Seq::<Card>::empty().to_multiset().count(b) == 0);
        }
        v@.to_multiset_ensures();
        assert forall|i: int| 0 <= i < v@.len() implies (#[trigger] v@[i]).wf() && (
        v@[i].is_wild_family() ==> v@[i].color == CardColor::Black) by {
            assert(v@.contains(v@[i]));
            assert(v@.to_multiset().count(v@[i]) > 0);
            assert(full_set_count(v@[i]) > 0);
        }
    }
    v
}

impl Deck {
    /// A fresh deck: the full fixed set shuffled into the draw pile, with an
    /// empty discard pile.
    pub fn new() -> (d: Deck)
        ensures
            d@.draw_pile.len() == CARDS_TOTAL_IN_GAME,
            d@.discard_pile.len() == 0,
            forall|b: Card| #[trigger] d@.draw_pile.to_multiset().count(b) == full_set_count(b),
    {
        let mut pile = full_card_set();
        rnd::shuffle_vec(&mut pile);
        Deck { draw_pile: pile, discard_pile: Vec::new() }
    }

    /// Builds a deck from explicitly given piles; the last element of each
    /// is its top.
    pub fn from_piles(draw_pile: Vec<Card>, discard_pile: Vec<Card>) -> (d: Deck)
        ensures
            d@.draw_pile == draw_pile@,
            d@.discard_pile == discard_pile@,
    {
        Deck { draw_pile, discard_pile }
    }

    /// Removes and returns the top of the draw pile. On exhaustion the
    /// discard pile, minus its top card, is shuffled back into the draw pile
    /// first; only when that leaves nothing to draw does it return none.
    pub fn draw(&mut self) -> (r: Option<Card>)
        ensures
            r is None <==> (old(self)@.draw_pile.len() == 0 && old(self)@.discard_pile.len()
                <= 1),
            r is None ==> final(self)@ == old(self)@,
            r is Some ==> final(self)@.total() == old(self)@.total() - 1,
            old(self)@.draw_pile.len() > 0 ==> r == Some(old(self)@.draw_pile.last())
                && final(self)@.draw_pile == old(self)@.draw_pile.drop_last()
                && final(self)@.discard_pile == old(self)@.discard_pile,
            r is Some && old(self)@.draw_pile.len() == 0 ==> final(self)@.discard_pile == seq![
                old(self)@.discard_pile.last(),
            ] && final(self)@.draw_pile.push(r->0).to_multiset() == old(
                self,
            )@.discard_pile.drop_last().to_multiset(),
            r matches Some(c) ==> forall|b: Card|
                #[trigger] deck_count(old(self)@, b) == deck_count(final(self)@, b) + (if b == c {
                    1int
                } else {
                    0int
                }),
    {
        if self.draw_pile.len() == 0 {
            if self.discard_pile.len() <= 1 {
                return None;
            }
            let top = self.discard_pile.pop().unwrap();
            core::mem::swap(&mut self.draw_pile, &mut self.discard_pile);
            self.discard_pile.push(top);
            proof {
                assert(self.discard_pile@ =~= seq![old(self)@.discard_pile.last()]);
            }
            let ghost rest = self.draw_pile@;
            proof {
                assert(rest == old(self)@.discard_pile.drop_last());
            }
            rnd::shuffle_vec(&mut self.draw_pile);
            let ghost shuffled = self.draw_pile@;
            let c = self.draw_pile.pop().unwrap();
            proof {
                broadcast use lemma_count_push;

                assert(shuffled =~= self.draw_pile@.push(c));
                assert(self.draw_pile@.push(c).to_multiset() == rest.to_multiset());
                let top = old(self)@.discard_pile.last();
                assert(old(self)@.discard_pile =~= rest.push(top));
                assert(self@.discard_pile =~= Seq::<Card>::empty().push(top));
                assert(old(self)@.draw_pile =~= Seq::<Card>::empty());
                assert forall|b: Card|
                    #[trigger] deck_count(old(self)@, b) == deck_count(self@, b) + (if b == c {
                        1int
                    } else {
                        0int
                    }) by {
                    lemma_empty_count(b);
                    assert(old(self)@.draw_pile.to_multiset().count(b) == 0);
                    assert(old(self)@.discard_pile.to_multiset().count(b)
                        == rest.push(top).to_multiset().count(b));
                    assert(rest.to_multiset().count(b) == self@.draw_pile.push(
                        c,
                    ).to_multiset().count(b));
                    assert(self@.discard_pile.to_multiset().count(b) == Seq::<Card>::empty().push(
                        top,
                    ).to_multiset().count(b));
                }
            }
            Some(c)
        } else {
            let c = self.draw_pile.pop().unwrap();
            proof {
                broadcast use lemma_count_push;

                assert(old(self)@.draw_pile =~= self.draw_pile@.push(c));
                assert forall|b: Card|
                    #[trigger] deck_count(old(self)@, b) == deck_count(self@, b) + (if b == c {
                        1int
                    } else {
                        0int
                    }) by {
                    assert(old(self)@.draw_pile.to_multiset().count(b)
                        == self@.draw_pile.push(c).to_multiset().count(b));
                }
            }
            Some(c)
        }
    }

    /// Appends a played card onto the discard pile, which becomes the new
    /// top used for legality checks.
    pub fn play(&mut self, card: Card)
        ensures
            final(self)@.draw_pile == old(self)@.draw_pile,
            final(self)@.discard_pile == old(self)@.discard_pile.push(card),
    {
        self.discard_pile.push(card);
    }

    /// The current top of the discard pile; callers guarantee the pile is
    /// non-empty (the dealing step establishes a first top card).
    pub fn top_discard_card(&self) -> (r: &Card)
        requires
            self@.discard_pile.len() > 0,
        ensures
            *r == self@.discard_pile.last(),
    {
        &self.discard_pile[self.discard_pile.len() - 1]
    }

    pub fn draw_pile_size(&self) -> (r: usize)
        ensures
            r == self@.draw_pile.len(),
    {
        self.draw_pile.len()
    }

    pub fn discard_pile_size(&self) -> (r: usize)
        ensures
            r == self@.discard_pile.len(),
    {
        self.discard_pile.len()
    }
}

} // verus!
