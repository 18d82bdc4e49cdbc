use vstd::prelude::*;
use vstd::arithmetic::div_mod::lemma_add_mod_noop_right;
use vstd::arithmetic::div_mod::lemma_mod_multiples_vanish;
use vstd::arithmetic::div_mod::lemma_mod_self_0;
use vstd::arithmetic::div_mod::lemma_small_mod;
use crate::active_cards::ActiveCards;
use crate::active_cards::chain_draw_sum;
use crate::active_cards::chain_wf;
use crate::card::Card;
use crate::card::CardColor;
use crate::card::CardSymbol;
use crate::deck::CARDS_TOTAL_IN_GAME;
use crate::deck::Deck;
use crate::deck::DeckV;
use crate::deck::deck_count;
use crate::deck::full_set_count;
use crate::deck::lemma_count_push;
use crate::deck::lemma_empty_count;
use crate::err::CreateStatusError;
use crate::err::DrawCardsError;
use crate::err::GameStartError;
use crate::err::PlayCardError;
use crate::err::PlayerExistError;
use crate::err::PlayerTurnError;
use crate::msg::AddressedWSMsg;
use crate::msg::WSMsg;
use crate::player::Player;
use crate::player::PlayerV;
use crate::player::is_first_card_index;
use crate::rnd;

verus! {

/// How many cards each player is dealt when a game starts.
pub const CARDS_DEALT_TO_PLAYERS: usize = 7;

/// The lifecycle of a game: players join in the lobby, play while running,
/// and the game finishes when the turn loops back to the player who just
/// acted with nobody else left to play.
#[derive(Clone, Copy, Debug, PartialEq, Eq, Structural)]
pub enum GameStatus {
    Lobby,
    Running,
    Finished,
}

/// The mathematical content of a game, over the views of its parts.
pub ghost struct GameV {
    pub id: Seq<char>,
    pub status: GameStatus,
    pub players: Seq<PlayerV>,
    pub deck: DeckV,
    pub current_player: int,
    pub active_cards: Seq<Card>,
    pub is_clockwise: bool,
    pub messages: Seq<AddressedWSMsg>,
}

/// How many of the seated players have finished (emptied their hand).
pub open spec fn num_finished(players: Seq<PlayerV>) -> int
    decreases players.len(),
{
    if players.len() == 0 {
        0
    } else {
        num_finished(players.drop_last()) + if players.last().finished() {
            1int
        } else {
            0int
        }
    }
}

/// The number of cards held over all hands.
pub open spec fn sum_hands(players: Seq<PlayerV>) -> int
    decreases players.len(),
{
    if players.len() == 0 {
        0
    } else {
        sum_hands(players.drop_last()) + players.last().hand.len()
    }
}

/// Some seated player carries this name.
pub open spec fn has_player(players: Seq<PlayerV>, name: Seq<char>) -> bool {
    exists|i: int| 0 <= i < players.len() && (#[trigger] players[i]).name == name
}

/// Index `i` holds the first seated player carrying `name`.
pub open spec fn is_first_with_name(players: Seq<PlayerV>, name: Seq<char>, i: int) -> bool {
    &&& 0 <= i < players.len()
    &&& players[i].name == name
    &&& forall|j: int| 0 <= j < i ==> (#[trigger] players[j]).name != name
}

/// The index of the first seated player carrying `name`.
pub open spec fn first_with_name(players: Seq<PlayerV>, name: Seq<char>) -> int {
    choose|i: int| is_first_with_name(players, name, i)
}

/// Rank `r` is held by some seated player.
pub open spec fn rank_held(players: Seq<PlayerV>, r: int) -> bool {
    exists|i: int| 0 <= i < players.len() && (#[trigger] players[i]).position == Some(r as usize)
}

/// Finish ranks are consistent: a rank is held exactly by the finished
/// players, ranks stay below the number of finished players, no rank is
/// held twice, and every rank below that number is held by someone.
pub open spec fn positions_wf(players: Seq<PlayerV>) -> bool {
    &&& forall|i: int|
        0 <= i < players.len() ==> ((#[trigger] players[i]).finished() <==> players[i].position
            is Some)
    &&& forall|i: int|
        0 <= i < players.len() && (#[trigger] players[i]).position is Some
            ==> players[i].position->0 < num_finished(players)
    &&& forall|i: int, j: int|
        0 <= i < j < players.len() && (#[trigger] players[i]).position is Some && (
        #[trigger] players[j]).position is Some ==> players[i].position != players[j].position
    &&& forall|r: int| 0 <= r < num_finished(players) ==> #[trigger] rank_held(players, r)
}

/// One step of the turn pointer in the current direction, wrapping around
/// the seating order.
pub open spec fn step_idx(len: int, cw: bool, idx: int) -> int {
    if cw {
        (idx + 1) % len
    } else {
        (idx + len - 1) % len
    }
}

/// Where the turn pointer lands: it steps repeatedly, skipping finished
/// players, until it finds an unfinished one or the fuel runs out.
pub open spec fn next_unfinished_from(players: Seq<PlayerV>, cw: bool, idx: int, fuel: nat) -> int
    decreases fuel,
{
    if fuel == 0 {
        idx
    } else {
        let nxt = step_idx(players.len() as int, cw, idx);
        if !players[nxt].finished() {
            nxt
        } else {
            next_unfinished_from(players, cw, nxt, (fuel - 1) as nat)
        }
    }
}

/// The turn pointer after a full turn advance from `idx`.
pub open spec fn turn_target(players: Seq<PlayerV>, cw: bool, idx: int) -> int {
    next_unfinished_from(players, cw, idx, players.len() as nat)
}

/// `idx` stepped `n` times in the current direction.
pub open spec fn step_iter(len: int, cw: bool, idx: int, n: nat) -> int
    decreases n,
{
    if n == 0 {
        idx
    } else {
        step_idx(len, cw, step_iter(len, cw, idx, (n - 1) as nat))
    }
}

impl GameV {
    /// The discard top every legality check is made against.
    pub open spec fn top_card(self) -> Card {
        self.deck.discard_pile.last()
    }

    /// A forced-response chain is pending.
    pub open spec fn chain_active(self) -> bool {
        self.active_cards.len() > 0
    }

    /// The symbol the pending chain is made of.
    pub open spec fn active_symbol(self) -> CardSymbol {
        self.active_cards[0].symbol
    }

    /// Card legality: while a chain is active only the chain's symbol may be
    /// played; otherwise a Black card, a color match or a symbol match.
    pub open spec fn can_play_spec(self, card: Card) -> bool {
        if self.chain_active() {
            card.symbol == self.active_symbol()
        } else {
            card.color == CardColor::Black || card.color == self.top_card().color || card.symbol
                == self.top_card().symbol
        }
    }

    /// The player whose turn it is.
    pub open spec fn current(self) -> PlayerV {
        self.players[self.current_player]
    }


    /// Some card of this hand is legal to play right now.
    pub open spec fn hand_has_playable(self, hand: Seq<Card>) -> bool {
        exists|i: int| 0 <= i < hand.len() && self.can_play_spec(#[trigger] hand[i])
    }

    /// When drawing is allowed: the named player is seated and at turn,
    /// holds no legal play, and faces no Skip chain.
    pub open spec fn can_draw_spec(self, name: Seq<char>) -> bool {
        &&& has_player(self.players, name)
        &&& self.current().name == name
        &&& !self.hand_has_playable(self.players[first_with_name(self.players, name)].hand)
        &&& !(self.chain_active() && self.active_symbol() == CardSymbol::Skip)
    }

    /// When playing is allowed: the named player is seated, at turn, and
    /// the card is legal against the chain or the discard top.
    pub open spec fn can_play_card_spec(self, name: Seq<char>, card: Card) -> bool {
        &&& has_player(self.players, name)
        &&& self.current().name == name
        &&& self.can_play_spec(card)
    }

    /// Every invariant a reachable game state satisfies; in particular the
    /// full fixed card set is conserved over the piles and all hands, and a
    /// running game's turn pointer rests on an unfinished player.
    pub open spec fn wf(self) -> bool {
        &&& self.players.len() >= 1
        &&& 0 <= self.current_player < self.players.len()
        &&& self.deck.total() + sum_hands(self.players) == CARDS_TOTAL_IN_GAME
        &&& chain_wf(self.active_cards)
        &&& self.status == GameStatus::Lobby ==> {
            &&& self.active_cards.len() == 0
            &&& self.deck.discard_pile.len() == 0
            &&& forall|i: int|
                0 <= i < self.players.len() ==> (#[trigger] self.players[i]).hand.len() == 0
                    && self.players[i].position is None
        }
        &&& self.chain_active() ==> (self.active_symbol() == CardSymbol::Skip
            || self.active_symbol() == CardSymbol::Draw2 || self.active_symbol()
            == CardSymbol::Draw4)
        &&& (self.status == GameStatus::Running || self.status == GameStatus::Finished) ==> {
            &&& self.deck.discard_pile.len() >= 1
            &&& self.active_cards.len() <= self.deck.discard_pile.len()
            &&& positions_wf(self.players)
        }
        &&& self.status == GameStatus::Running ==> {
            &&& num_finished(self.players) < self.players.len()
            &&& !self.current().finished()
        }
    }
}

/// `num_finished` stays within 0 and the number of players.
pub proof fn lemma_num_finished_bounds(players: Seq<PlayerV>)
    ensures
        0 <= num_finished(players) <= players.len(),
    decreases players.len(),
{
    if players.len() > 0 {
        lemma_num_finished_bounds(players.drop_last());
    }
}

/// All hands together hold a non-negative number of cards.
pub proof fn lemma_sum_hands_nonneg(players: Seq<PlayerV>)
    ensures
        sum_hands(players) >= 0,
    decreases players.len(),
{
    if players.len() > 0 {
        lemma_sum_hands_nonneg(players.drop_last());
    }
}

/// How replacing one player changes the finished count.
pub proof fn lemma_num_finished_update(players: Seq<PlayerV>, i: int, p: PlayerV)
    requires
        0 <= i < players.len(),
    ensures
        num_finished(players.update(i, p)) == num_finished(players) - (if players[i].finished() {
            1int
        } else {
            0int
        }) + (if p.finished() {
            1int
        } else {
            0int
        }),
    decreases players.len(),
{
    let upd = players.update(i, p);
    if i == players.len() - 1 {
        assert(upd.drop_last() =~= players.drop_last());
        assert(upd.last() == p);
    } else {
        assert(upd.drop_last() =~= players.drop_last().update(i, p));
        assert(upd.last() == players.last());
        lemma_num_finished_update(players.drop_last(), i, p);
    }
}

/// How replacing one player changes the card total over all hands.
pub proof fn lemma_sum_hands_update(players: Seq<PlayerV>, i: int, p: PlayerV)
    requires
        0 <= i < players.len(),
    ensures
        sum_hands(players.update(i, p)) == sum_hands(players) - players[i].hand.len()
            + p.hand.len(),
    decreases players.len(),
{
    let upd = players.update(i, p);
    if i == players.len() - 1 {
        assert(upd.drop_last() =~= players.drop_last());
    } else {
        assert(upd.drop_last() =~= players.drop_last().update(i, p));
        lemma_sum_hands_update(players.drop_last(), i, p);
    }
}

/// How many copies of a card all hands together hold.
pub open spec fn hands_count(players: Seq<PlayerV>, b: Card) -> int
    decreases players.len(),
{
    if players.len() == 0 {
        0
    } else {
        hands_count(players.drop_last(), b) + players.last().hand.to_multiset().count(b) as int
    }
}

/// How replacing one player changes the per-card hand totals.
proof fn lemma_hands_count_update(players: Seq<PlayerV>, i: int, p: PlayerV, b: Card)
    requires
        0 <= i < players.len(),
    ensures
        hands_count(players.update(i, p), b) == hands_count(players, b)
            - players[i].hand.to_multiset().count(b) + p.hand.to_multiset().count(b),
    decreases players.len(),
{
    let upd = players.update(i, p);
    if i == players.len() - 1 {
        assert(upd.drop_last() =~= players.drop_last());
    } else {
        assert(upd.drop_last() =~= players.drop_last().update(i, p));
        lemma_hands_count_update(players.drop_last(), i, p, b);
    }
}

/// Seating one more player extends both counts in the obvious way.
pub proof fn lemma_counts_push(players: Seq<PlayerV>, p: PlayerV)
    ensures
        num_finished(players.push(p)) == num_finished(players) + if p.finished() {
            1int
        } else {
            0int
        },
        sum_hands(players.push(p)) == sum_hands(players) + p.hand.len(),
{
    assert(players.push(p).drop_last() =~= players);
    assert(players.push(p).last() == p);
}

/// Everyone is finished exactly when the finished count reaches the player
/// count; below it, some player is still unfinished.
pub proof fn lemma_num_finished_complete(players: Seq<PlayerV>)
    ensures
        num_finished(players) == players.len() <==> (forall|i: int|
            0 <= i < players.len() ==> (#[trigger] players[i]).finished()),
        num_finished(players) < players.len() ==> exists|i: int|
            0 <= i < players.len() && !(#[trigger] players[i]).finished(),
    decreases players.len(),
{
    lemma_num_finished_bounds(players);
    if players.len() > 0 {
        lemma_num_finished_complete(players.drop_last());
        lemma_num_finished_bounds(players.drop_last());
        let prefix = players.drop_last();
        assert(forall|i: int| 0 <= i < prefix.len() ==> prefix[i] == players[i]);
        if num_finished(players) == players.len() {
            assert(players.last().finished());
            assert(players[players.len() - 1].finished());
        }
        if num_finished(players) < players.len() {
            if players.last().finished() {
                let w = choose|i: int| 0 <= i < prefix.len() && !(#[trigger] prefix[i]).finished();
                assert(!players[w].finished());
            } else {
                assert(!players[players.len() - 1].finished());
            }
        }
        if forall|i: int| 0 <= i < players.len() ==> (#[trigger] players[i]).finished() {
            assert(forall|i: int| 0 <= i < prefix.len() ==> (#[trigger] prefix[i]).finished());
        }
    }
}

/// Stepping `n` times clockwise lands on `(start + n) % len`;
/// counter-clockwise on `(start - n) % len`.
proof fn lemma_step_iter_closed_form(len: int, cw: bool, start: int, n: nat)
    requires
        len >= 1,
        0 <= start < len,
    ensures
        cw ==> step_iter(len, cw, start, n) == (start + n) % len,
        !cw ==> step_iter(len, cw, start, n) == (start - n) % len,
    decreases n,
{
    if n == 0 {
        lemma_small_mod(start as nat, len as nat);
    } else {
        lemma_step_iter_closed_form(len, cw, start, (n - 1) as nat);
        if cw {
            lemma_add_mod_noop_right(1, start + n - 1, len);
        } else {
            lemma_add_mod_noop_right(len - 1, start - (n - 1), len);
            lemma_mod_multiples_vanish(1, start - n, len);
        }
    }
}

/// From any seat, every seat is reached within `len` steps in either
/// direction.
proof fn lemma_step_iter_reaches(len: int, cw: bool, start: int, target: int)
    requires
        len >= 1,
        0 <= start < len,
        0 <= target < len,
    ensures
        exists|n: nat| 1 <= n <= len && #[trigger] step_iter(len, cw, start, n) == target,
{
    lemma_small_mod(target as nat, len as nat);
    if cw {
        let n0: nat = if target > start {
            (target - start) as nat
        } else {
            (target - start + len) as nat
        };
        lemma_step_iter_closed_form(len, cw, start, n0);
        if target <= start {
            lemma_mod_multiples_vanish(1, target, len);
        }
        assert(step_iter(len, cw, start, n0) == target);
        assert(1 <= n0 <= len);
    } else {
        let n0: nat = if start > target {
            (start - target) as nat
        } else {
            (start - target + len) as nat
        };
        lemma_step_iter_closed_form(len, cw, start, n0);
        if start <= target {
            lemma_mod_multiples_vanish(-1, target, len);
        }
        assert(step_iter(len, cw, start, n0) == target);
        assert(1 <= n0 <= len);
    }
}

/// After dealing, every hand holds the dealt count, so the hands sum to
/// seven per player and nobody is finished.
pub proof fn lemma_dealt_hands(players: Seq<PlayerV>)
    requires
        forall|i: int|
            0 <= i < players.len() ==> (#[trigger] players[i]).hand.len()
                == CARDS_DEALT_TO_PLAYERS,
    ensures
        sum_hands(players) == CARDS_DEALT_TO_PLAYERS * players.len(),
        num_finished(players) == 0,
    decreases players.len(),
{
    if players.len() > 0 {
        let prefix = players.drop_last();
        assert(forall|i: int| 0 <= i < prefix.len() ==> prefix[i] == players[i]);
        lemma_dealt_hands(prefix);
        assert(players.last() == players[players.len() - 1]);
    }
}


/// No two seated players share a name; the collaborator layer enforces
/// this before seating anyone.
pub open spec fn names_unique(players: Seq<PlayerV>) -> bool {
    forall|i: int, j: int|
        0 <= i < j < players.len() ==> (#[trigger] players[i]).name != (
        #[trigger] players[j]).name
}

/// The card that actually reaches the table: a Black wild-family card with a
/// chosen replacement color is morphed; anything else is played as handed in.
pub open spec fn played_outcome(card: Card, new_color: Option<CardColor>) -> Card {
    if card.is_wild_family() && card.color == CardColor::Black && new_color is Some {
        Card { color: new_color->0, symbol: card.symbol }
    } else {
        card
    }
}

/// `p` is one of the seated players.
pub open spec fn seated_in(p: PlayerV, players: Seq<PlayerV>) -> bool {
    exists|j: int| 0 <= j < players.len() && p == players[j]
}

/// Some seated player carries `p`'s name and authorship.
pub open spec fn identity_seated_in(p: PlayerV, players: Seq<PlayerV>) -> bool {
    exists|j: int|
        0 <= j < players.len() && p.name == (#[trigger] players[j]).name && p.is_author
            == players[j].is_author
}

/// Identities survive the re-deal: if the reseated players carry exactly
/// the original names and authorships, and dealing changes only hands, the
/// dealt seating still carries exactly the original identities.
proof fn lemma_identity_through_deal(pre_p: Seq<PlayerV>, bd: Seq<PlayerV>, ad: Seq<PlayerV>)
    requires
        bd.len() == pre_p.len(),
        ad.len() == bd.len(),
        forall|i: int| 0 <= i < bd.len() ==> identity_seated_in(#[trigger] bd[i], pre_p),
        forall|i: int| 0 <= i < pre_p.len() ==> identity_seated_in(#[trigger] pre_p[i], bd),
        forall|i: int|
            0 <= i < ad.len() ==> (#[trigger] ad[i]).name == bd[i].name && ad[i].is_author
                == bd[i].is_author,
    ensures
        forall|i: int| 0 <= i < ad.len() ==> identity_seated_in(#[trigger] ad[i], pre_p),
        forall|i: int| 0 <= i < pre_p.len() ==> identity_seated_in(#[trigger] pre_p[i], ad),
{
    assert forall|i: int| 0 <= i < ad.len() implies identity_seated_in(
        #[trigger] ad[i],
        pre_p,
    ) by {
        assert(identity_seated_in(bd[i], pre_p));
        let j = choose|j: int|
            0 <= j < pre_p.len() && bd[i].name == (#[trigger] pre_p[j]).name && bd[i].is_author
                == pre_p[j].is_author;
        assert(ad[i].name == pre_p[j].name && ad[i].is_author == pre_p[j].is_author);
    }
    assert forall|i: int| 0 <= i < pre_p.len() implies identity_seated_in(
        #[trigger] pre_p[i],
        ad,
    ) by {
        assert(identity_seated_in(pre_p[i], bd));
        let j = choose|j: int|
            0 <= j < bd.len() && pre_p[i].name == (#[trigger] bd[j]).name && pre_p[i].is_author
                == bd[j].is_author;
        assert(pre_p[i].name == ad[j].name && pre_p[i].is_author == ad[j].is_author);
    }
}

/// A freshly dealt running state satisfies every game invariant.
proof fn lemma_started_wf(g: GameV)
    requires
        g.status == GameStatus::Running,
        g.players.len() >= 1,
        0 <= g.current_player < g.players.len(),
        forall|i: int|
            0 <= i < g.players.len() ==> (#[trigger] g.players[i]).hand.len()
                == CARDS_DEALT_TO_PLAYERS && g.players[i].position is None,
        g.deck.discard_pile.len() == 1,
        g.deck.draw_pile.len() == CARDS_TOTAL_IN_GAME - g.players.len() * CARDS_DEALT_TO_PLAYERS
            - 1,
        g.players.len() * CARDS_DEALT_TO_PLAYERS + 1 <= CARDS_TOTAL_IN_GAME,
        g.active_cards.len() == 0,
    ensures
        g.wf(),
{
    lemma_dealt_hands(g.players);
    assert(chain_wf(g.active_cards));
    assert(num_finished(g.players) == 0);
    assert(positions_wf(g.players));
}

/// What a successful start establishes, relating the pre and post states.
pub open spec fn start_post(post: GameV, pre: GameV) -> bool {
    &&& post.status == GameStatus::Running
    &&& post.id == pre.id
    &&& post.is_clockwise == pre.is_clockwise
    &&& post.players.len() == pre.players.len()
    &&& forall|i: int|
        0 <= i < post.players.len() ==> (#[trigger] post.players[i]).hand.len()
            == CARDS_DEALT_TO_PLAYERS && post.players[i].position is None
    &&& forall|i: int|
        0 <= i < post.players.len() ==> identity_seated_in(#[trigger] post.players[i], pre.players)
    &&& forall|i: int|
        0 <= i < pre.players.len() ==> identity_seated_in(#[trigger] pre.players[i], post.players)
    &&& post.deck.discard_pile.len() == 1
    &&& post.deck.draw_pile.len() == CARDS_TOTAL_IN_GAME - post.players.len()
        * CARDS_DEALT_TO_PLAYERS - 1
    &&& post.active_cards.len() == 0
    &&& forall|b: Card|
        #[trigger] deck_count(post.deck, b) + hands_count(post.players, b) == full_set_count(b)
    &&& 0 <= post.current_player < post.players.len()
    &&& names_unique(pre.players) ==> names_unique(post.players)
    &&& post.messages.len() == pre.messages.len() + post.players.len()
    &&& post.messages.subrange(0, pre.messages.len() as int) == pre.messages
    &&& forall|k: int|
        0 <= k < post.players.len() ==> {
            &&& post.messages[pre.messages.len() + k].recipient@ == (
            #[trigger] post.players[k]).name
            &&& post.messages[pre.messages.len() + k].msg matches WSMsg::Status { recipient }
                && recipient@ == post.players[k].name
        }
}


/// Replacing an unranked, unfinished player keeps the finish ranks
/// consistent, whether the replacement has just finished (taking the next
/// rank) or plays on unranked.
proof fn lemma_positions_wf_update(players: Seq<PlayerV>, pi: int, p: PlayerV)
    requires
        players.len() <= usize::MAX,
        0 <= pi < players.len(),
        positions_wf(players),
        !players[pi].finished(),
        players[pi].position is None,
        p.finished() ==> p.position == Some(num_finished(players) as usize),
        !p.finished() ==> p.position is None,
    ensures
        positions_wf(players.update(pi, p)),
{
    lemma_num_finished_bounds(players);
    lemma_num_finished_update(players, pi, p);
    let upd = players.update(pi, p);
    let k = num_finished(players);
    let k2 = num_finished(upd);
    assert(k2 == if p.finished() {
        k + 1
    } else {
        k
    });
    assert forall|i: int|
        0 <= i < upd.len() implies ((#[trigger] upd[i]).finished() <==> upd[i].position
        is Some) by {
        if i != pi {
            assert(upd[i] == players[i]);
        }
    }
    assert forall|i: int|
        0 <= i < upd.len() && (#[trigger] upd[i]).position is Some implies upd[i].position->0
        < k2 by {
        if i != pi {
            assert(upd[i] == players[i]);
        }
    }
    assert forall|i: int, j: int|
        0 <= i < j < upd.len() && (#[trigger] upd[i]).position is Some && (
    #[trigger] upd[j]).position is Some implies upd[i].position != upd[j].position by {
        if i != pi && j != pi {
            assert(upd[i] == players[i] && upd[j] == players[j]);
        } else if i == pi {
            assert(upd[j] == players[j]);
            assert(players[j].position is Some ==> players[j].position->0 < k);
        } else {
            assert(upd[i] == players[i]);
            assert(players[i].position is Some ==> players[i].position->0 < k);
        }
    }
    assert forall|r: int| 0 <= r < k2 implies #[trigger] rank_held(upd, r) by {
        if r < k {
            assert(rank_held(players, r));
            let i = choose|i: int|
                0 <= i < players.len() && (#[trigger] players[i]).position == Some(r as usize);
            assert(i != pi);
            assert(upd[i].position == Some(r as usize));
        } else {
            assert(p.finished());
            assert(upd[pi].position == Some(r as usize));
        }
    }
}

/// What a successful draw establishes: the forced amount (or one card) is
/// moved from the deck into the acting player's hand, the chain is
/// resolved, the turn advances and a draw notification is queued for all.
pub open spec fn draw_post(pre: GameV, post: GameV, name: Seq<char>, cards: Seq<Card>) -> bool {
    let pi = first_with_name(pre.players, name);
    let dc = if pre.chain_active() {
        chain_draw_sum(pre.active_cards)
    } else {
        1
    };
    let avail = pre.deck.total() - 1;
    let mid = pre.players.update(
        pi,
        (PlayerV { hand: pre.players[pi].hand + cards, ..pre.players[pi] }),
    );
    &&& cards.len() == (if dc <= avail {
        dc
    } else {
        avail
    })
    &&& post.players == mid
    &&& post.id == pre.id
    &&& post.status == pre.status
    &&& post.is_clockwise == pre.is_clockwise
    &&& post.active_cards.len() == 0
    &&& post.deck.total() == pre.deck.total() - cards.len()
    &&& forall|b: Card|
        #[trigger] deck_count(pre.deck, b) == deck_count(post.deck, b) + cards.to_multiset().count(
            b,
        ) as int
    &&& post.deck.discard_pile.len() >= 1
    &&& post.current_player == turn_target(mid, pre.is_clockwise, pre.current_player)
    &&& post.messages.len() == pre.messages.len() + pre.players.len()
    &&& forall|k: int|
        0 <= k < pre.players.len() ==> {
            &&& (#[trigger] post.messages[pre.messages.len() + k]).recipient@
                == pre.players[k].name
            &&& post.messages[pre.messages.len() + k].msg matches WSMsg::Draw {
                by,
                next,
                count,
            } && by@ == name && count == dc && next@ == post.current().name
        }
}

/// What a successful play establishes: the first matching card leaves the
/// acting player's hand (morphed if it was a Black wild with a chosen
/// color), lands on the discard top, resolves its effect on the chain and
/// the direction, assigns the next finish rank if the hand emptied, and the
/// turn advances; the game finishes when the turn returns to the acting
/// player's name.
pub open spec fn play_post(
    pre: GameV,
    post: GameV,
    name: Seq<char>,
    card: Card,
    new_color: Option<CardColor>,
) -> bool {
    let pi = first_with_name(pre.players, name);
    let played = played_outcome(card, new_color);
    let finished = pre.players[pi].hand.len() == 1;
    let stackable = card.symbol == CardSymbol::Skip || card.symbol == CardSymbol::Draw2
        || card.symbol == CardSymbol::Draw4;
    &&& post.id == pre.id
    &&& post.deck.draw_pile == pre.deck.draw_pile
    &&& post.deck.discard_pile == pre.deck.discard_pile.push(played)
    &&& post.is_clockwise == (if card.symbol == CardSymbol::Reverse {
        !pre.is_clockwise
    } else {
        pre.is_clockwise
    })
    &&& post.active_cards == (if stackable {
        pre.active_cards.push(played)
    } else {
        Seq::<Card>::empty()
    })
    &&& post.players.len() == pre.players.len()
    &&& exists|ci: int|
        is_first_card_index(pre.players[pi].hand, card, ci) && post.players
            == pre.players.update(
            pi,
            (PlayerV {
                hand: pre.players[pi].hand.remove(ci),
                position: if finished {
                    Some(num_finished(pre.players) as usize)
                } else {
                    pre.players[pi].position
                },
                ..pre.players[pi]
            }),
        )
    &&& (num_finished(post.players) < post.players.len() ==> post.current_player == turn_target(
        post.players,
        post.is_clockwise,
        pre.current_player,
    ))
    &&& (num_finished(post.players) == post.players.len() ==> post.current_player
        == pre.current_player)
    &&& post.status == (if post.current().name == name {
        GameStatus::Finished
    } else {
        GameStatus::Running
    })
    &&& post.messages.len() == pre.messages.len() + pre.players.len() + (if finished {
        pre.players.len() as int
    } else {
        0int
    }) + (if post.status == GameStatus::Finished {
        pre.players.len() as int
    } else {
        0int
    })
    &&& forall|k: int|
        0 <= k < pre.players.len() ==> {
            &&& (#[trigger] post.messages[pre.messages.len() + k]).recipient@
                == pre.players[k].name
            &&& post.messages[pre.messages.len() + k].msg matches WSMsg::PlayCard {
                by,
                next,
                card,
            } && by@ == name && card == played && next@ == post.current().name
        }
    &&& finished ==> forall|k: int|
        0 <= k < pre.players.len() ==> {
            &&& post.messages[pre.messages.len() + pre.players.len() + k].recipient@ == (
            #[trigger] pre.players[k]).name
            &&& post.messages[pre.messages.len() + pre.players.len() + k].msg matches
                WSMsg::Finish { player } && player@ == name
        }
    &&& post.status == GameStatus::Finished ==> forall|k: int|
        0 <= k < pre.players.len() ==> {
            &&& post.messages[pre.messages.len() + pre.players.len() + (if finished {
                pre.players.len() as int
            } else {
                0int
            }) + k].recipient@ == (#[trigger] pre.players[k]).name
            &&& post.messages[pre.messages.len() + pre.players.len() + (if finished {
                pre.players.len() as int
            } else {
                0int
            }) + k].msg matches WSMsg::Status { recipient } && recipient@
                == pre.players[k].name
        }
}


/// Nobody holding cards counts as finished.
pub proof fn lemma_none_finished(players: Seq<PlayerV>)
    requires
        forall|i: int| 0 <= i < players.len() ==> (#[trigger] players[i]).hand.len() > 0,
    ensures
        num_finished(players) == 0,
    decreases players.len(),
{
    if players.len() > 0 {
        let prefix = players.drop_last();
        assert(forall|i: int| 0 <= i < prefix.len() ==> prefix[i] == players[i]);
        lemma_none_finished(prefix);
        assert(players.last() == players[players.len() - 1]);
    }
}

/// Card-count conservation: in every reachable state the draw pile, the
/// discard pile and all hands together hold exactly the full fixed set.
pub proof fn lemma_card_conservation(g: GameV)
    requires
        g.wf(),
    ensures
        g.deck.draw_pile.len() + g.deck.discard_pile.len() + sum_hands(g.players)
            == CARDS_TOTAL_IN_GAME,
{
}

/// Turn validity: while the game runs, the turn pointer rests on a seated,
/// unfinished player.
pub proof fn lemma_turn_validity(g: GameV)
    requires
        g.wf(),
        g.status == GameStatus::Running,
    ensures
        0 <= g.current_player < g.players.len(),
        !g.current().finished(),
{
}

/// Single active chain family: the chain never holds two different
/// symbols.
pub proof fn lemma_single_chain_family(g: GameV)
    requires
        g.wf(),
    ensures
        forall|i: int, j: int|
            0 <= i < g.active_cards.len() && 0 <= j < g.active_cards.len() ==> (
            #[trigger] g.active_cards[i]).symbol == (#[trigger] g.active_cards[j]).symbol,
{
    crate::active_cards::lemma_chain_single_family(g.active_cards);
}

/// Wild legality: with no chain pending, a Black card is legal whatever
/// the discard top shows.
pub proof fn lemma_wild_always_legal(g: GameV, card: Card)
    requires
        !g.chain_active(),
        card.color == CardColor::Black,
    ensures
        g.can_play_spec(card),
{
}


/// A value standing at two distinct seats counts at least twice.
proof fn lemma_count_two_indices(s: Seq<Player>, i: int, j: int)
    requires
        0 <= i < j < s.len(),
        s[i] == s[j],
    ensures
        s.to_multiset().count(s[i]) >= 2,
{
    broadcast use vstd::multiset::group_multiset_axioms;

    s.to_multiset_ensures();
    let s2 = s.remove(i);
    s2.to_multiset_ensures();
    assert(s2[j - 1] == s[j]);
    assert(s2.contains(s[i]));
    assert(s2.to_multiset().count(s[i]) > 0);
    assert(s.to_multiset().count(s[i]) == s2.to_multiset().count(s[i]) + 1);
}

/// A value counted at least twice stands at two distinct seats.
proof fn lemma_count_two_witnesses(s: Seq<Player>, x: Player)
    requires
        s.to_multiset().count(x) >= 2,
    ensures
        exists|i: int, j: int| 0 <= i < j < s.len() && #[trigger] s[i] == x && #[trigger] s[j]
            == x,
{
    broadcast use vstd::multiset::group_multiset_axioms;

    s.to_multiset_ensures();
    assert(s.contains(x));
    let i = choose|i: int| 0 <= i < s.len() && s[i] == x;
    let s2 = s.remove(i);
    s2.to_multiset_ensures();
    assert(s.to_multiset().count(x) == s2.to_multiset().count(x) + 1);
    assert(s2.contains(x));
    let k = choose|k: int| 0 <= k < s2.len() && s2[k] == x;
    if k < i {
        assert(s2[k] == s[k]);
        assert(0 <= k < i < s.len() && s[k] == x && s[i] == x);
    } else {
        assert(s2[k] == s[k + 1]);
        assert(0 <= i < k + 1 < s.len() && s[i] == x && s[k + 1] == x);
    }
}

/// Wherever some player carries the name, a first such seat exists.
pub proof fn lemma_exists_first(players: Seq<PlayerV>, name: Seq<char>, w: int)
    requires
        0 <= w < players.len(),
        players[w].name == name,
    ensures
        is_first_with_name(players, name, first_with_name(players, name)),
    decreases w,
{
    if forall|j: int| 0 <= j < w ==> (#[trigger] players[j]).name != name {
        assert(is_first_with_name(players, name, w));
    } else {
        let w2 = choose|j: int| 0 <= j < w && (#[trigger] players[j]).name == name;
        lemma_exists_first(players, name, w2);
    }
}

/// Finish-rank permanence and order: a play never changes a rank that was
/// already assigned, and the rank it assigns to a player who just emptied
/// their hand is exactly the number of players finished before them.
pub proof fn lemma_finish_rank_monotone(
    pre: GameV,
    post: GameV,
    name: Seq<char>,
    card: Card,
    new_color: Option<CardColor>,
)
    requires
        pre.wf(),
        pre.status == GameStatus::Running,
        has_player(pre.players, name),
        play_post(pre, post, name, card, new_color),
    ensures
        forall|i: int|
            0 <= i < pre.players.len() && (#[trigger] pre.players[i]).position is Some
                ==> post.players[i].position == pre.players[i].position,
        pre.players[first_with_name(pre.players, name)].hand.len() == 1
            ==> post.players[first_with_name(pre.players, name)].position == Some(
            num_finished(pre.players) as usize,
        ),
{
    let pi = first_with_name(pre.players, name);
    let w = choose|i: int| 0 <= i < pre.players.len() && (#[trigger] pre.players[i]).name == name;
    lemma_exists_first(pre.players, name, w);
    assert(pre.players[pi].hand.len() > 0);
    assert(!pre.players[pi].finished());
    assert(pre.players[pi].position is None);
    assert forall|i: int|
        0 <= i < pre.players.len() && (#[trigger] pre.players[i]).position is Some
        implies post.players[i].position == pre.players[i].position by {
        assert(i != pi);
        assert(post.players[i] == pre.players[i]);
    }
}

/// Explicit parts form a legal freshly-running state: somebody is seated,
/// the turn pointer is in range, the discard pile is founded, every hand is
/// dealt and nobody has finished, names are unique, and the parts hold
/// exactly the full fixed card set.
pub open spec fn running_parts_ok(players: Seq<PlayerV>, deck: DeckV, current: int) -> bool {
    &&& players.len() >= 1
    &&& 0 <= current < players.len()
    &&& deck.discard_pile.len() >= 1
    &&& forall|i: int|
        0 <= i < players.len() ==> (#[trigger] players[i]).hand.len() > 0 && players[i].position
            is None
    &&& names_unique(players)
    &&& deck.total() + sum_hands(players) == CARDS_TOTAL_IN_GAME
}

/// A prefix of the seating never holds more cards than the whole of it.
proof fn lemma_sum_hands_prefix(players: Seq<PlayerV>, i: int)
    requires
        0 <= i <= players.len(),
    ensures
        sum_hands(players.take(i)) <= sum_hands(players),
    decreases players.len(),
{
    if i == players.len() {
        assert(players.take(i) =~= players);
    } else {
        assert(players.drop_last().take(i) =~= players.take(i));
        lemma_sum_hands_prefix(players.drop_last(), i);
    }
}

/// `post` differs from `pre` at most in the outbox of pending messages.
pub open spec fn same_but_messages(post: GameV, pre: GameV) -> bool {
    post == (GameV { messages: post.messages, ..pre })
}

/// The rule engine for one game: seating and turn order, card legality, the
/// forced-response chain, drawing, win detection and the lifecycle. Outbound
/// notifications are recorded in an outbox for the collaborator to take and
/// deliver; the engine itself never performs delivery.
pub struct Game {
    pub id: String,
    status: GameStatus,
    players: Vec<Player>,
    deck: Deck,
    current_player: usize,
    active_cards: ActiveCards,
    pub is_clockwise: bool,
    messages: Vec<AddressedWSMsg>,
}

impl View for Game {
    type V = GameV;

    closed spec fn view(&self) -> GameV {
        GameV {
            id: self.id@,
            status: self.status,
            players: self.players@.map_values(|p: Player| p@),
            deck: self.deck@,
            current_player: self.current_player as int,
            active_cards: self.active_cards@,
            is_clockwise: self.is_clockwise,
            messages: self.messages@,
        }
    }
}

/// A fresh vector of players with the same views.
fn copy_players(players: &Vec<Player>) -> (r: Vec<Player>)
    ensures
        r@.map_values(|p: Player| p@) == players@.map_values(|p: Player| p@),
{
    let mut r: Vec<Player> = Vec::new();
    let n = players.len();
    for i in 0..n
        invariant
            n == players@.len(),
            r@.len() == i,
            forall|t: int| 0 <= t < i ==> (#[trigger] r@[t])@ == players@[t]@,
    {
        r.push(players[i].clone());
    }
    proof {
        assert(r@.map_values(|p: Player| p@) =~= players@.map_values(|p: Player| p@));
    }
    r
}

/// A fresh vector holding the same addressed notifications.
fn copy_messages(messages: &Vec<AddressedWSMsg>) -> (r: Vec<AddressedWSMsg>)
    ensures
        r@ == messages@,
{
    let mut r: Vec<AddressedWSMsg> = Vec::new();
    let n = messages.len();
    for i in 0..n
        invariant
            n == messages@.len(),
            r@.len() == i,
            forall|t: int| 0 <= t < i ==> #[trigger] r@[t] == messages@[t],
    {
        r.push(messages[i].clone());
    }
    proof {
        assert(r@ =~= messages@);
    }
    r
}

impl Clone for Game {
    fn clone(&self) -> (r: Self)
        ensures
            r@ == self@,
    {
        let r = Game {
            id: self.id.clone(),
            status: self.status,
            players: copy_players(&self.players),
            deck: self.deck.clone(),
            current_player: self.current_player,
            active_cards: self.active_cards.clone(),
            is_clockwise: self.is_clockwise,
            messages: copy_messages(&self.messages),
        };
        proof {
            assert(r@.players =~= self@.players);
        }
        r
    }
}

impl Game {
    /// A fresh lobby holding only its author, with a full shuffled deck.
    pub fn new(author_name: String) -> (g: Game)
        ensures
            g@.wf(),
            g@.status == GameStatus::Lobby,
            g@.players.len() == 1,
            g@.players[0].name == author_name@,
            g@.players[0].is_author,
            g@.current_player == 0,
            g@.is_clockwise,
            g@.active_cards.len() == 0,
            g@.messages.len() == 0,
            g@.id.len() == 10,
            g@.deck.draw_pile.len() == CARDS_TOTAL_IN_GAME,
            g@.deck.discard_pile.len() == 0,
            forall|b: Card|
                #[trigger] g@.deck.draw_pile.to_multiset().count(b) == full_set_count(b),
    {
        let mut players: Vec<Player> = Vec::new();
        players.push(Player::new(author_name, true));
        let g = Game {
            id: rnd::generate_game_id(),
            status: GameStatus::Lobby,
            players,
            deck: Deck::new(),
            current_player: 0,
            active_cards: ActiveCards::new(),
            is_clockwise: true,
            messages: Vec::new(),
        };
        proof {
            assert(g@.players.len() == 1);
            assert(g@.players[0].hand.len() == 0);
            assert(g@.players.last() == g@.players[0]);
            assert(g@.players.drop_last() =~= Seq::<PlayerV>::empty());
            assert(sum_hands(Seq::<PlayerV>::empty()) == 0);
            assert(num_finished(Seq::<PlayerV>::empty()) == 0);
            assert(sum_hands(g@.players) == 0);
            assert(num_finished(g@.players) <= 1) by {
                lemma_num_finished_bounds(g@.players);
            }
        }
        g
    }

    /// Seats one more (non-author) player; only meaningful in the lobby, as
    /// the caller enforces.
    pub fn add_player(&mut self, name: String)
        requires
            old(self)@.wf(),
            old(self)@.status == GameStatus::Lobby,
        ensures
            final(self)@.wf(),
            final(self)@ == (GameV {
                players: old(self)@.players.push(
                    PlayerV {
                        name: name@,
                        hand: Seq::<Card>::empty(),
                        is_author: false,
                        position: None,
                    },
                ),
                ..old(self)@
            }),
            names_unique(old(self)@.players) && !has_player(old(self)@.players, name@)
                ==> names_unique(final(self)@.players),
    {
        let ghost pv = PlayerV {
            name: name@,
            hand: Seq::<Card>::empty(),
            is_author: false,
            position: None,
        };
        self.players.push(Player::new(name, false));
        proof {
            assert(final(self)@.players =~= old(self)@.players.push(pv));
            lemma_counts_push(old(self)@.players, pv);
            if names_unique(old(self)@.players) && !has_player(old(self)@.players, name@) {
                assert forall|i: int, j: int|
                    0 <= i < j < final(self)@.players.len() implies (
                #[trigger] final(self)@.players[i]).name != (
                #[trigger] final(self)@.players[j]).name by {
                    if j < old(self)@.players.len() {
                        assert(old(self)@.players[i].name != old(self)@.players[j].name);
                    } else {
                        assert(final(self)@.players[j].name == name@);
                        assert(old(self)@.players[i].name != name@);
                    }
                }
            }
        }
    }

    /// The first seated player carrying the given name, if any.
    pub fn find_player(&self, name: String) -> (r: Option<&Player>)
        ensures
            r is Some <==> has_player(self@.players, name@),
            r matches Some(p) ==> is_first_with_name(self@.players, name@, first_with_name(
                self@.players,
                name@,
            )) && p@ == self@.players[first_with_name(self@.players, name@)],
    {
        let n = self.players.len();
        for i in 0..n
            invariant
                n == self@.players.len(),
                forall|j: int| 0 <= j < i ==> (#[trigger] self@.players[j]).name != name@,
        {
            let player_name = self.players[i].name();
            if player_name == name {
                proof {
                    assert(is_first_with_name(self@.players, name@, i as int));
                }
                return Some(&self.players[i]);
            }
        }
        None
    }

    /// The player who created the game (the first author found).
    pub fn find_author(&self) -> (r: Option<&Player>)
        ensures
            r is Some <==> exists|i: int|
                0 <= i < self@.players.len() && (#[trigger] self@.players[i]).is_author,
            r matches Some(p) ==> p@.is_author && exists|i: int|
                0 <= i < self@.players.len() && p@ == self@.players[i],
    {
        let n = self.players.len();
        for i in 0..n
            invariant
                n == self@.players.len(),
                forall|j: int| 0 <= j < i ==> !(#[trigger] self@.players[j]).is_author,
        {
            if self.players[i].is_author() {
                proof {
                    assert(self@.players[i as int].is_author);
                }
                return Some(&self.players[i]);
            }
        }
        None
    }

    /// Read access to the seating order.
    pub fn players(&self) -> (r: &Vec<Player>)
        ensures
            r@.map_values(|p: Player| p@) == self@.players,
    {
        &self.players
    }

    /// Read access to the deck.
    pub fn deck(&self) -> (r: &Deck)
        ensures
            r@ == self@.deck,
    {
        &self.deck
    }

    /// Read access to the pending forced-response chain.
    pub fn active_cards(&self) -> (r: &ActiveCards)
        ensures
            r@ == self@.active_cards,
    {
        &self.active_cards
    }

    pub fn status(&self) -> (r: GameStatus)
        ensures
            r == self@.status,
    {
        self.status
    }

    /// The player whose turn it is; present whenever the pointer is in
    /// range, which every reachable state guarantees.
    pub fn get_current_player(&self) -> (r: Option<&Player>)
        ensures
            r is Some <==> self@.current_player < self@.players.len(),
            r matches Some(p) ==> p@ == self@.current(),
    {
        if self.current_player < self.players.len() {
            Some(&self.players[self.current_player])
        } else {
            None
        }
    }

    /// Flips the direction of play.
    pub fn reverse(&mut self)
        ensures
            final(self)@ == (GameV { is_clockwise: !old(self)@.is_clockwise, ..old(self)@ }),
    {
        self.is_clockwise = !self.is_clockwise;
    }

    /// Builds the personalized status notification for one recipient; fails
    /// when the recipient is not seated.
    pub fn status_msg(&self, recipient: String) -> (r: Result<WSMsg, CreateStatusError>)
        ensures
            r is Ok <==> has_player(self@.players, recipient@),
            r matches Ok(m) ==> m == (WSMsg::Status { recipient }),
            r matches Err(e) ==> e == CreateStatusError::NoSuchRecipient(recipient),
    {
        match self.find_player(recipient.clone()) {
            Some(_) => Ok(WSMsg::Status { recipient }),
            None => Err(CreateStatusError::NoSuchRecipient(recipient)),
        }
    }

    /// Queues one copy of the message for every seated player, in seating
    /// order.
    pub fn message_all(&mut self, msg: WSMsg)
        ensures
            same_but_messages(final(self)@, old(self)@),
            final(self)@.messages.len() == old(self)@.messages.len() + old(self)@.players.len(),
            final(self)@.messages.subrange(
                0,
                old(self)@.messages.len() as int,
            ) == old(self)@.messages,
            forall|k: int|
                0 <= k < old(self)@.players.len()
                    ==> (#[trigger] final(self)@.messages[old(self)@.messages.len() + k]).recipient@
                    == old(self)@.players[k].name
                    && final(self)@.messages[old(self)@.messages.len() + k].msg == msg,
    {
        let n = self.players.len();
        let ghost base = self@.messages.len() as int;
        proof {
            assert(self@.messages.subrange(0, base) =~= old(self)@.messages);
        }
        for i in 0..n
            invariant
                n == self@.players.len(),
                same_but_messages(self@, old(self)@),
                self@.players == old(self)@.players,
                base == old(self)@.messages.len(),
                self@.messages.len() == base + i,
                self@.messages.subrange(0, base) == old(self)@.messages,
                forall|k: int|
                    0 <= k < i ==> (#[trigger] self@.messages[base + k]).recipient@ == old(
                        self,
                    )@.players[k].name && self@.messages[base + k].msg == msg,
        {
            let recipient = self.players[i].name();
            self.messages.push(AddressedWSMsg { recipient, msg: msg.clone() });
            proof {
                assert(self@.messages.subrange(0, base) =~= old(self)@.messages);
            }
        }
    }

    /// Counts the players who have finished.
    fn count_finished(&self) -> (r: usize)
        ensures
            r == num_finished(self@.players),
    {
        let n = self.players.len();
        let mut c: usize = 0;
        for i in 0..n
            invariant
                n == self@.players.len(),
                c == num_finished(self@.players.take(i as int)),
                c <= i,
        {
            proof {
                assert(self@.players.take((i + 1) as int).drop_last() =~= self@.players.take(
                    i as int,
                ));
                assert(self@.players.take((i + 1) as int).last() == self@.players[i as int]);
            }
            if self.players[i].is_finished() {
                c = c + 1;
            }
        }
        proof {
            assert(self@.players.take(n as int) =~= self@.players);
        }
        c
    }

    /// Moves the turn pointer one seat in the current direction.
    fn next_turn(&mut self)
        requires
            old(self)@.players.len() >= 1,
            0 <= old(self)@.current_player < old(self)@.players.len(),
        ensures
            final(self)@ == (GameV {
                current_player: step_idx(
                    old(self)@.players.len() as int,
                    old(self)@.is_clockwise,
                    old(self)@.current_player,
                ),
                ..old(self)@
            }),
    {
        proof {
            let len = self@.players.len() as int;
            let cur = self@.current_player;
            if self@.is_clockwise {
                if cur + 1 == len {
                    lemma_mod_self_0(len);
                } else {
                    lemma_small_mod((cur + 1) as nat, len as nat);
                }
            } else {
                if cur == 0 {
                    lemma_small_mod((len - 1) as nat, len as nat);
                } else {
                    lemma_mod_multiples_vanish(1, cur - 1, len);
                    lemma_small_mod((cur - 1) as nat, len as nat);
                }
            }
        }
        let len = self.players.len();
        self.current_player = if self.is_clockwise {
            if self.current_player + 1 == len {
                0
            } else {
                self.current_player + 1
            }
        } else {
            if self.current_player == 0 {
                len - 1
            } else {
                self.current_player - 1
            }
        };
    }

    /// Whether the player at the turn pointer has finished.
    fn current_is_finished(&self) -> (r: bool)
        requires
            0 <= self@.current_player < self@.players.len(),
        ensures
            r == self@.current().finished(),
    {
        self.players[self.current_player].is_finished()
    }

    /// Advances the turn to the next unfinished player, skipping finished
    /// seats; reports false, changing nothing, when everyone has finished.
    pub fn end_turn(&mut self) -> (r: bool)
        requires
            old(self)@.players.len() >= 1,
            0 <= old(self)@.current_player < old(self)@.players.len(),
        ensures
            r == (num_finished(old(self)@.players) < old(self)@.players.len()),
            !r ==> final(self)@ == old(self)@,
            r ==> final(self)@ == (GameV {
                current_player: turn_target(
                    old(self)@.players,
                    old(self)@.is_clockwise,
                    old(self)@.current_player,
                ),
                ..old(self)@
            }),
            r ==> 0 <= final(self)@.current_player < old(self)@.players.len()
                && !final(self)@.current().finished(),
    {
        let finished_count = self.count_finished();
        proof {
            lemma_num_finished_bounds(self@.players);
        }
        if finished_count == self.players.len() {
            return false;
        }
        let ghost players = self@.players;
        let ghost cw = self@.is_clockwise;
        let ghost cur0 = self@.current_player;
        let ghost len_i = players.len() as int;
        let ghost target = turn_target(players, cw, cur0);
        let ghost u = choose|i: int| 0 <= i < players.len() && !(#[trigger] players[i]).finished();
        proof {
            lemma_num_finished_complete(players);
            assert(0 <= u < len_i && !players[u].finished());
            lemma_step_iter_reaches(len_i, cw, cur0, u);
        }
        let ghost n_u = choose|n: nat|
            1 <= n <= len_i && #[trigger] step_iter(len_i, cw, cur0, n) == u;
        let len = self.players.len();
        let mut s: usize = 1;
        self.next_turn();
        proof {
            assert(step_iter(len_i, cw, cur0, 0nat) == cur0);
            assert(step_iter(len_i, cw, cur0, 1nat) == step_idx(len_i, cw, cur0));
            assert(next_unfinished_from(players, cw, cur0, len_i as nat) == (if !players[step_idx(
                len_i,
                cw,
                cur0,
            )].finished() {
                step_idx(len_i, cw, cur0)
            } else {
                next_unfinished_from(players, cw, step_idx(len_i, cw, cur0), (len_i - 1) as nat)
            }));
        }
        while self.current_is_finished()
            invariant
                players.len() >= 1,
                len == players.len(),
                len_i == players.len() as int,
                self@ == (GameV { current_player: self@.current_player, ..old(self)@ }),
                players == old(self)@.players,
                cw == old(self)@.is_clockwise,
                cur0 == old(self)@.current_player,
                0 <= self@.current_player < len_i,
                1 <= s <= n_u,
                1 <= n_u <= len_i,
                step_iter(len_i, cw, cur0, n_u as nat) == u,
                0 <= u < len_i && !players[u].finished(),
                self@.current_player == step_iter(len_i, cw, cur0, s as nat),
                target == turn_target(players, cw, cur0),
                target == (if !players[self@.current_player].finished() {
                    self@.current_player
                } else {
                    next_unfinished_from(players, cw, self@.current_player, (len_i - s) as nat)
                }),
            decreases n_u - s,
        {
            proof {
                assert(self@.current_player != u);
                assert(s < n_u);
                assert(s < len_i);
                assert(next_unfinished_from(
                    players,
                    cw,
                    self@.current_player,
                    (len_i - s) as nat,
                ) == (if !players[step_idx(len_i, cw, self@.current_player)].finished() {
                    step_idx(len_i, cw, self@.current_player)
                } else {
                    next_unfinished_from(
                        players,
                        cw,
                        step_idx(len_i, cw, self@.current_player),
                        (len_i - s - 1) as nat,
                    )
                }));
                assert(step_iter(len_i, cw, cur0, (s + 1) as nat) == step_idx(
                    len_i,
                    cw,
                    step_iter(len_i, cw, cur0, s as nat),
                ));
            }
            self.next_turn();
            s = s + 1;
        }
        proof {
            assert(self@.current_player == target);
        }
        true
    }

    /// The index of the player holding a given finish rank; rank
    /// consistency guarantees there is one.
    fn find_player_index_with_rank(&self, rank: usize) -> (idx: usize)
        requires
            positions_wf(self@.players),
            rank < num_finished(self@.players),
        ensures
            idx < self@.players.len(),
            self@.players[idx as int].position == Some(rank),
    {
        let n = self.players.len();
        for j in 0..n
            invariant
                n == self@.players.len(),
                positions_wf(self@.players),
                rank < num_finished(self@.players),
                forall|t: int|
                    0 <= t < j ==> (#[trigger] self@.players[t]).position != Some(rank),
        {
            match self.players[j].position() {
                Some(p) => {
                    if p == rank {
                        return j;
                    }
                    proof {
                        assert(self@.players[j as int].position != Some(rank));
                    }
                },
                None => {
                    proof {
                        assert(self@.players[j as int].position != Some(rank));
                    }
                },
            }
        }
        proof {
            assert(rank_held(self@.players, rank as int));
            assert(false);
        }
        0
    }

    /// The finished players, ordered by finish rank 0, 1, 2, ...
    pub fn get_finished_players(&self) -> (r: Vec<&Player>)
        requires
            self@.wf(),
            self@.status == GameStatus::Running || self@.status == GameStatus::Finished,
        ensures
            r@.len() == num_finished(self@.players),
            forall|k: int|
                0 <= k < r@.len() ==> (#[trigger] r@[k])@.position == Some(k as usize)
                    && r@[k]@.finished() && exists|j: int|
                    0 <= j < self@.players.len() && r@[k]@ == self@.players[j],
    {
        let total = self.count_finished();
        let mut result: Vec<&Player> = Vec::new();
        for rank in 0..total
            invariant
                total == num_finished(self@.players),
                positions_wf(self@.players),
                result@.len() == rank,
                forall|k: int|
                    0 <= k < rank ==> (#[trigger] result@[k])@.position == Some(k as usize)
                        && result@[k]@.finished() && exists|j: int|
                        0 <= j < self@.players.len() && result@[k]@ == self@.players[j],
        {
            let idx = self.find_player_index_with_rank(rank);
            result.push(&self.players[idx]);
            proof {
                assert(result@[rank as int]@ == self@.players[idx as int]);
            }
        }
        result
    }

    /// Shuffles the seating order; the same players remain seated.
    fn randomize_player_order(&mut self)
        ensures
            final(self)@ == (GameV { players: final(self)@.players, ..old(self)@ }),
            final(self)@.players.len() == old(self)@.players.len(),
            forall|i: int|
                0 <= i < final(self)@.players.len() ==> seated_in(
                    #[trigger] final(self)@.players[i],
                    old(self)@.players,
                ),
            forall|i: int|
                0 <= i < old(self)@.players.len() ==> seated_in(
                    #[trigger] old(self)@.players[i],
                    final(self)@.players,
                ),
            names_unique(old(self)@.players) ==> names_unique(final(self)@.players),
    {
        let ghost pre = self.players@;
        rnd::shuffle_vec(&mut self.players);
        proof {
            let post = self.players@;
            pre.to_multiset_ensures();
            post.to_multiset_ensures();
            assert forall|i: int| 0 <= i < final(self)@.players.len() implies seated_in(
                #[trigger] final(self)@.players[i],
                old(self)@.players,
            ) by {
                assert(post.contains(post[i]));
                assert(pre.to_multiset().count(post[i]) > 0);
                assert(pre.contains(post[i]));
                let j = choose|j: int| 0 <= j < pre.len() && pre[j] == post[i];
                assert(0 <= j < old(self)@.players.len());
                assert(final(self)@.players[i] == old(self)@.players[j]);
            }
            assert forall|i: int| 0 <= i < old(self)@.players.len() implies seated_in(
                #[trigger] old(self)@.players[i],
                final(self)@.players,
            ) by {
                assert(pre.contains(pre[i]));
                assert(post.to_multiset().count(pre[i]) > 0);
                assert(post.contains(pre[i]));
                let j = choose|j: int| 0 <= j < post.len() && post[j] == pre[i];
                assert(0 <= j < final(self)@.players.len());
                assert(old(self)@.players[i] == final(self)@.players[j]);
            }
            if names_unique(old(self)@.players) {
                assert forall|i: int, j: int|
                    0 <= i < j < final(self)@.players.len() implies (
                #[trigger] final(self)@.players[i]).name != (
                #[trigger] final(self)@.players[j]).name by {
                    assert(post.contains(post[i]) && post.contains(post[j]));
                    assert(pre.to_multiset().count(post[i]) > 0);
                    assert(pre.to_multiset().count(post[j]) > 0);
                    let a = choose|a: int| 0 <= a < pre.len() && pre[a] == post[i];
                    let b = choose|b: int| 0 <= b < pre.len() && pre[b] == post[j];
                    if a == b {
                        assert(post[i] == post[j]);
                        lemma_count_two_indices(post, i, j);
                        lemma_count_two_witnesses(pre, post[i]);
                        let (w1, w2) = choose|w1: int, w2: int|
                            0 <= w1 < w2 < pre.len() && #[trigger] pre[w1] == post[i] && (
                            #[trigger] pre[w2]) == post[i];
                        assert(old(self)@.players[w1].name == old(self)@.players[w2].name);
                        assert(false);
                    } else {
                        assert(final(self)@.players[i] == old(self)@.players[a]);
                        assert(final(self)@.players[j] == old(self)@.players[b]);
                        if a < b {
                            assert(old(self)@.players[a].name != old(self)@.players[b].name);
                        } else {
                            assert(old(self)@.players[b].name != old(self)@.players[a].name);
                        }
                    }
                }
            }
        }
    }

    /// Picks a uniformly random starting seat, as if some rounds had
    /// already been played.
    fn randomize_starting_player(&mut self)
        requires
            old(self)@.players.len() >= 1,
        ensures
            final(self)@ == (GameV {
                current_player: final(self)@.current_player,
                ..old(self)@
            }),
            0 <= final(self)@.current_player < old(self)@.players.len(),
    {
        self.current_player = rnd::random_index(self.players.len());
    }

    /// Clears every finish rank from the previous game.
    fn clear_player_positions(&mut self)
        ensures
            final(self)@ == (GameV { players: final(self)@.players, ..old(self)@ }),
            final(self)@.players.len() == old(self)@.players.len(),
            forall|i: int|
                0 <= i < old(self)@.players.len() ==> #[trigger] final(self)@.players[i]
                    == (PlayerV { position: None, ..old(self)@.players[i] }),
    {
        let n = self.players.len();
        for i in 0..n
            invariant
                n == self@.players.len(),
                self@ == (GameV { players: self@.players, ..old(self)@ }),
                forall|t: int|
                    0 <= t < i ==> #[trigger] self@.players[t] == (PlayerV {
                        position: None,
                        ..old(self)@.players[t]
                    }),
                forall|t: int|
                    i <= t < n ==> #[trigger] self@.players[t] == old(self)@.players[t],
        {
            let ghost before = self@.players;
            self.players[i].clear_position();
            proof {
                assert(self@.players =~= before.update(
                    i as int,
                    (PlayerV { position: None, ..before[i as int] }),
                ));
            }
        }
    }

    /// Clears all hands and deals each player a fresh starting hand from a
    /// brand-new deck, then flips one card to found the discard pile.
    #[verifier::rlimit(100)]
    #[verifier::spinoff_prover]
    fn deal_starting_cards(&mut self) -> (r: Result<(), GameStartError>)
        requires
            old(self)@.players.len() >= 1,
            old(self)@.players.len() * CARDS_DEALT_TO_PLAYERS + 1 <= CARDS_TOTAL_IN_GAME,
        ensures
            r is Ok,
            final(self)@ == (GameV {
                players: final(self)@.players,
                deck: final(self)@.deck,
                ..old(self)@
            }),
            final(self)@.players.len() == old(self)@.players.len(),
            forall|i: int|
                0 <= i < old(self)@.players.len() ==> (#[trigger] final(self)@.players[i])
                    == (PlayerV {
                    hand: final(self)@.players[i].hand,
                    ..old(self)@.players[i]
                }) && final(self)@.players[i].hand.len() == CARDS_DEALT_TO_PLAYERS,
            final(self)@.deck.discard_pile.len() == 1,
            final(self)@.deck.draw_pile.len() == CARDS_TOTAL_IN_GAME - old(self)@.players.len()
                * CARDS_DEALT_TO_PLAYERS - 1,
            forall|b: Card|
                #[trigger] deck_count(final(self)@.deck, b) + hands_count(
                    final(self)@.players,
                    b,
                ) == full_set_count(b),
    {
        self.deck = Deck::new();
        proof {
            assert(self@.deck.discard_pile =~= Seq::<Card>::empty());
            assert(self@.players.take(0) =~= Seq::<PlayerV>::empty());
            assert forall|b: Card|
                #[trigger] deck_count(self@.deck, b) + hands_count(
                    self@.players.take(0),
                    b,
                ) == full_set_count(b) by {
                lemma_empty_count(b);
                assert(self@.deck.discard_pile.to_multiset().count(b) == 0);
                assert(hands_count(Seq::<PlayerV>::empty(), b) == 0);
            }
        }
        let n = self.players.len();
        for i in 0..n
            invariant
                n == self@.players.len(),
                n * CARDS_DEALT_TO_PLAYERS + 1 <= CARDS_TOTAL_IN_GAME,
                self@ == (GameV { players: self@.players, deck: self@.deck, ..old(self)@ }),
                self@.deck.draw_pile.len() == CARDS_TOTAL_IN_GAME - i * CARDS_DEALT_TO_PLAYERS,
                self@.deck.discard_pile.len() == 0,
                forall|t: int|
                    0 <= t < i ==> (#[trigger] self@.players[t]) == (PlayerV {
                        hand: self@.players[t].hand,
                        ..old(self)@.players[t]
                    }) && self@.players[t].hand.len() == CARDS_DEALT_TO_PLAYERS,
                forall|t: int|
                    i <= t < n ==> #[trigger] self@.players[t] == old(self)@.players[t],
                forall|b: Card|
                    #[trigger] deck_count(self@.deck, b) + hands_count(
                        self@.players.take(i as int),
                        b,
                    ) == full_set_count(b),
        {
            let ghost before_drop = self@.players;
            self.players[i].drop_all_cards();
            proof {
                assert forall|b: Card|
                    #[trigger] hands_count(self@.players.take(i as int), b) == hands_count(
                        before_drop.take(i as int),
                        b,
                    ) by {
                    assert(self@.players.take(i as int) =~= before_drop.take(i as int));
                }
            }
            proof {
                assert(self@.players =~= before_drop.update(
                    i as int,
                    (PlayerV { hand: Seq::<Card>::empty(), ..before_drop[i as int] }),
                ));
                assert forall|b: Card|
                    #[trigger] deck_count(self@.deck, b) + hands_count(
                        self@.players.take(i as int),
                        b,
                    ) + self@.players[i as int].hand.to_multiset().count(b) == full_set_count(
                        b,
                    ) by {
                    lemma_empty_count(b);
                    assert(self@.players.take(i as int) =~= before_drop.take(i as int));
                }
            }
            for dealt in 0..CARDS_DEALT_TO_PLAYERS
                invariant
                    n == self@.players.len(),
                    i < n,
                    n * CARDS_DEALT_TO_PLAYERS + 1 <= CARDS_TOTAL_IN_GAME,
                    self@ == (GameV { players: self@.players, deck: self@.deck, ..old(self)@ }),
                    self@.deck.draw_pile.len() == CARDS_TOTAL_IN_GAME - i * CARDS_DEALT_TO_PLAYERS
                        - dealt,
                    self@.deck.discard_pile.len() == 0,
                    forall|t: int|
                        0 <= t < i ==> (#[trigger] self@.players[t]) == (PlayerV {
                            hand: self@.players[t].hand,
                            ..old(self)@.players[t]
                        }) && self@.players[t].hand.len() == CARDS_DEALT_TO_PLAYERS,
                    forall|t: int|
                        i < t < n ==> #[trigger] self@.players[t] == old(self)@.players[t],
                    self@.players[i as int] == (PlayerV {
                        hand: self@.players[i as int].hand,
                        ..old(self)@.players[i as int]
                    }),
                    self@.players[i as int].hand.len() == dealt,
                    forall|b: Card|
                        #[trigger] deck_count(self@.deck, b) + hands_count(
                            self@.players.take(i as int),
                            b,
                        ) + self@.players[i as int].hand.to_multiset().count(b) == full_set_count(
                            b,
                        ),
            {
                let ghost deck0 = self@.deck;
                let ghost players0 = self@.players;
                match self.deck.draw() {
                    None => {
                        proof {
                            assert(false);
                        }
                        return Err(GameStartError::DeckEmptyWhenStartingGame);
                    },
                    Some(card) => {
                        let ghost before_give = self@.players;
                        self.players[i].give_card(card);
                        proof {
                            broadcast use lemma_count_push;

                            assert(self@.players =~= before_give.update(
                                i as int,
                                (PlayerV {
                                    hand: before_give[i as int].hand.push(card),
                                    ..before_give[i as int]
                                }),
                            ));
                            assert forall|b: Card|
                                #[trigger] deck_count(self@.deck, b) + hands_count(
                                    self@.players.take(i as int),
                                    b,
                                ) + self@.players[i as int].hand.to_multiset().count(b)
                                == full_set_count(b) by {
                                assert(deck_count(deck0, b) == deck_count(self@.deck, b) + (
                                if b == card {
                                    1int
                                } else {
                                    0int
                                }));
                                assert(self@.players.take(i as int) =~= players0.take(i as int));
                                assert(self@.players[i as int].hand == players0[i as int].hand.push(
                                    card,
                                ));
                            }
                        }
                    },
                }
            }
            proof {
                assert forall|b: Card|
                    #[trigger] deck_count(self@.deck, b) + hands_count(
                        self@.players.take((i + 1) as int),
                        b,
                    ) == full_set_count(b) by {
                    assert(self@.players.take((i + 1) as int).drop_last() =~= self@.players.take(
                        i as int,
                    ));
                    assert(self@.players.take((i + 1) as int).last() == self@.players[i as int]);
                }
            }
        }
        proof {
            assert(self@.players.take(n as int) =~= self@.players);
        }
        let ghost deck_before_flip = self@.deck;
        match self.deck.draw() {
            None => {
                proof {
                    assert(false);
                }
                Err(GameStartError::DeckEmptyWhenStartingGame)
            },
            Some(card) => {
                let ghost deck_mid_flip = self@.deck;
                self.deck.play(card);
                proof {
                    broadcast use lemma_count_push;

                    assert forall|b: Card|
                        #[trigger] deck_count(self@.deck, b) + hands_count(
                            self@.players,
                            b,
                        ) == full_set_count(b) by {
                        assert(deck_count(deck_before_flip, b) == deck_count(deck_mid_flip, b) + (
                        if b == card {
                            1int
                        } else {
                            0int
                        }));
                        assert(self@.deck.discard_pile == deck_mid_flip.discard_pile.push(card));
                        assert(hands_count(self@.players, b) == hands_count(
                            self@.players.take(n as int),
                            b,
                        ));
                    }
                }
                Ok(())
            },
        }
    }

    /// Queues one personalized status notification per seated player.
    fn status_message_all(&mut self) -> (r: Result<(), CreateStatusError>)
        ensures
            r is Ok,
            same_but_messages(final(self)@, old(self)@),
            final(self)@.messages.len() == old(self)@.messages.len() + old(self)@.players.len(),
            final(self)@.messages.subrange(
                0,
                old(self)@.messages.len() as int,
            ) == old(self)@.messages,
            forall|k: int|
                0 <= k < old(self)@.players.len() ==> {
                    &&& (#[trigger] final(self)@.messages[old(self)@.messages.len()
                        + k]).recipient@ == old(self)@.players[k].name
                    &&& final(self)@.messages[old(self)@.messages.len() + k].msg matches
                        WSMsg::Status { recipient } && recipient@ == old(self)@.players[k].name
                },
    {
        let n = self.players.len();
        let ghost base = self@.messages.len() as int;
        proof {
            assert(self@.messages.subrange(0, base) =~= old(self)@.messages);
        }
        for i in 0..n
            invariant
                n == self@.players.len(),
                same_but_messages(self@, old(self)@),
                self@.players == old(self)@.players,
                base == old(self)@.messages.len(),
                self@.messages.len() == base + i,
                self@.messages.subrange(0, base) == old(self)@.messages,
                forall|k: int|
                    0 <= k < i ==> {
                        &&& (#[trigger] self@.messages[base + k]).recipient@ == old(
                            self,
                        )@.players[k].name
                        &&& self@.messages[base + k].msg matches WSMsg::Status { recipient }
                            && recipient@ == old(self)@.players[k].name
                    },
        {
            let name = self.players[i].name();
            proof {
                assert(self@.players[i as int].name == name@);
                assert(has_player(self@.players, name@));
            }
            match self.status_msg(name.clone()) {
                Ok(m) => {
                    self.messages.push(AddressedWSMsg { recipient: name, msg: m });
                    proof {
                        assert(self@.messages.subrange(0, base) =~= old(self)@.messages);
                    }
                },
                Err(e) => {
                    return Err(e);
                },
            }
        }
        Ok(())
    }

    /// Reseats the players in a random order with a random starting seat and
    /// no finish ranks.
    fn reseat(&mut self)
        requires
            old(self)@.players.len() >= 1,
        ensures
            final(self)@ == (GameV {
                players: final(self)@.players,
                current_player: final(self)@.current_player,
                ..old(self)@
            }),
            final(self)@.players.len() == old(self)@.players.len(),
            0 <= final(self)@.current_player < final(self)@.players.len(),
            forall|i: int|
                0 <= i < final(self)@.players.len() ==> (#[trigger] final(self)@.players[i]).position is None,
            forall|i: int|
                0 <= i < final(self)@.players.len() ==> identity_seated_in(
                    #[trigger] final(self)@.players[i],
                    old(self)@.players,
                ),
            forall|i: int|
                0 <= i < old(self)@.players.len() ==> identity_seated_in(
                    #[trigger] old(self)@.players[i],
                    final(self)@.players,
                ),
            names_unique(old(self)@.players) ==> names_unique(final(self)@.players),
    {
        let ghost pre = self@;
        self.randomize_player_order();
        let ghost shuffled = self@.players;
        self.randomize_starting_player();
        self.clear_player_positions();
        proof {
            assert forall|i: int|
                0 <= i < final(self)@.players.len() implies (
            #[trigger] final(self)@.players[i]).name == shuffled[i].name by {
                assert(final(self)@.players[i] == (PlayerV { position: None, ..shuffled[i] }));
            }
        }
        proof {
            let fin = final(self)@.players;
            assert forall|i: int| 0 <= i < fin.len() implies identity_seated_in(
                #[trigger] fin[i],
                pre.players,
            ) by {
                assert(seated_in(shuffled[i], pre.players));
                let j = choose|j: int| 0 <= j < pre.players.len() && shuffled[i] == pre.players[j];
                assert(fin[i].name == pre.players[j].name && fin[i].is_author
                    == pre.players[j].is_author);
            }
            assert forall|i: int| 0 <= i < pre.players.len() implies identity_seated_in(
                #[trigger] pre.players[i],
                fin,
            ) by {
                assert(seated_in(pre.players[i], shuffled));
                let j = choose|j: int| 0 <= j < shuffled.len() && pre.players[i] == shuffled[j];
                assert(pre.players[i].name == fin[j].name && pre.players[i].is_author
                    == fin[j].is_author);
            }
        }
    }

    /// Marks the game running, resets the chain, deals fresh hands and
    /// queues the status notifications.
    fn deal_and_announce(&mut self)
        requires
            old(self)@.players.len() >= 1,
            0 <= old(self)@.current_player < old(self)@.players.len(),
            old(self)@.players.len() * CARDS_DEALT_TO_PLAYERS + 1 <= CARDS_TOTAL_IN_GAME,
        ensures
            final(self)@.status == GameStatus::Running,
            final(self)@.id == old(self)@.id,
            final(self)@.is_clockwise == old(self)@.is_clockwise,
            final(self)@.current_player == old(self)@.current_player,
            final(self)@.players.len() == old(self)@.players.len(),
            forall|i: int|
                0 <= i < old(self)@.players.len() ==> (#[trigger] final(self)@.players[i])
                    == (PlayerV {
                    hand: final(self)@.players[i].hand,
                    ..old(self)@.players[i]
                }) && final(self)@.players[i].hand.len() == CARDS_DEALT_TO_PLAYERS,
            final(self)@.deck.discard_pile.len() == 1,
            final(self)@.deck.draw_pile.len() == CARDS_TOTAL_IN_GAME - old(self)@.players.len()
                * CARDS_DEALT_TO_PLAYERS - 1,
            final(self)@.active_cards.len() == 0,
            forall|b: Card|
                #[trigger] deck_count(final(self)@.deck, b) + hands_count(
                    final(self)@.players,
                    b,
                ) == full_set_count(b),
            final(self)@.messages.len() == old(self)@.messages.len() + old(self)@.players.len(),
            final(self)@.messages.subrange(
                0,
                old(self)@.messages.len() as int,
            ) == old(self)@.messages,
            forall|k: int|
                0 <= k < old(self)@.players.len() ==> {
                    &&& final(self)@.messages[old(self)@.messages.len() + k].recipient@ == (
                    #[trigger] final(self)@.players[k]).name
                    &&& final(self)@.messages[old(self)@.messages.len() + k].msg matches
                        WSMsg::Status { recipient } && recipient@ == final(self)@.players[k].name
                },
    {
        self.status = GameStatus::Running;
        self.active_cards.clear();
        match self.deal_starting_cards() {
            Err(_) => {
                proof {
                    assert(false);
                }
            },
            Ok(()) => {},
        }
        let ghost after_deal = self@;
        match self.status_message_all() {
            Err(_) => {
                proof {
                    assert(false);
                }
            },
            Ok(()) => {},
        }
        proof {
            assert(final(self)@.players =~= after_deal.players);
        }
    }

    /// The mutating pipeline of a successful start; the caller has already
    /// validated the lifecycle and the deck's capacity.
    #[verifier::rlimit(100)]
    #[verifier::spinoff_prover]
    fn begin_running(&mut self)
        requires
            old(self)@.players.len() >= 1,
            old(self)@.players.len() * CARDS_DEALT_TO_PLAYERS + 1 <= CARDS_TOTAL_IN_GAME,
        ensures
            final(self)@.wf(),
            start_post(final(self)@, old(self)@),
    {
        let ghost pre = self@;
        self.reseat();
        let ghost reseated = self@;
        self.deal_and_announce();
        proof {
            let fin = final(self)@;
            assert forall|i: int|
                0 <= i < fin.players.len() implies (#[trigger] fin.players[i]).name
                == reseated.players[i].name && fin.players[i].is_author
                == reseated.players[i].is_author && fin.players[i].position
                == reseated.players[i].position by {
                assert(fin.players[i] == (PlayerV {
                    hand: fin.players[i].hand,
                    ..reseated.players[i]
                }));
            }
            lemma_identity_through_deal(pre.players, reseated.players, fin.players);
            lemma_started_wf(fin);
            if names_unique(pre.players) {
                assert(names_unique(reseated.players));
                assert forall|i: int, j: int|
                    0 <= i < j < fin.players.len() implies (#[trigger] fin.players[i]).name != (
                #[trigger] fin.players[j]).name by {
                    assert(fin.players[i].name == reseated.players[i].name);
                    assert(fin.players[j].name == reseated.players[j].name);
                }
            }
        }
    }

    /// Randomizes seating and the starting player, clears finish ranks,
    /// re-deals from a fresh deck and queues a personalized status message
    /// for everyone. Fails when the game already runs, or when the deck
    /// cannot supply the starting hands plus the first discard; failure
    /// changes nothing.
    pub fn start(&mut self) -> (r: Result<(), GameStartError>)
        requires
            old(self)@.wf(),
        ensures
            final(self)@.wf(),
            r == Err::<(), GameStartError>(GameStartError::GameAlreadyStarted) <==> old(
                self,
            )@.status == GameStatus::Running,
            r == Err::<(), GameStartError>(GameStartError::DeckEmptyWhenStartingGame) <==> (old(
                self,
            )@.status != GameStatus::Running && old(self)@.players.len() * CARDS_DEALT_TO_PLAYERS
                + 1 > CARDS_TOTAL_IN_GAME),
            r is Err ==> final(self)@ == old(self)@,
            r is Ok ==> start_post(final(self)@, old(self)@),
    {
        if self.status() == GameStatus::Running {
            return Err(GameStartError::GameAlreadyStarted);
        }
        let n = self.players.len();
        if n > (CARDS_TOTAL_IN_GAME - 1) / CARDS_DEALT_TO_PLAYERS {
            return Err(GameStartError::DeckEmptyWhenStartingGame);
        }
        self.begin_running();
        Ok(())
    }


    /// The index of the first seated player carrying the given name.
    fn find_player_index(&self, name: &String) -> (r: Option<usize>)
        ensures
            r is Some <==> has_player(self@.players, name@),
            r matches Some(i) ==> is_first_with_name(self@.players, name@, i as int) && i as int
                == first_with_name(self@.players, name@),
    {
        let n = self.players.len();
        for i in 0..n
            invariant
                n == self@.players.len(),
                forall|j: int| 0 <= j < i ==> (#[trigger] self@.players[j]).name != name@,
        {
            let player_name = self.players[i].name();
            if player_name == *name {
                proof {
                    assert(is_first_with_name(self@.players, name@, i as int));
                    let c = first_with_name(self@.players, name@);
                    assert(is_first_with_name(self@.players, name@, c));
                    assert(c == i as int);
                }
                return Some(i);
            }
        }
        None
    }

    /// Whether the card is legal right now: while a chain is active only the
    /// chain's symbol counts; otherwise a Black card is always legal, and any
    /// color or symbol match with the discard top is legal.
    pub fn can_play_card(&self, played_card: &Card) -> (r: bool)
        requires
            self@.deck.discard_pile.len() > 0,
        ensures
            r == self@.can_play_spec(*played_card),
    {
        let top_card = *self.deck.top_discard_card();
        if self.active_cards.are_cards_active() {
            match self.active_cards.active_symbol() {
                Some(sym) => played_card.symbol == sym,
                None => false,
            }
        } else {
            played_card.color == CardColor::Black || played_card.color == top_card.color
                || played_card.symbol == top_card.symbol
        }
    }

    /// The seated player carrying the name, or the existence error.
    fn does_player_exist(&self, player_name: String) -> (r: Result<&Player, PlayerExistError>)
        ensures
            r is Ok <==> has_player(self@.players, player_name@),
            r is Ok ==> is_first_with_name(self@.players, player_name@, first_with_name(
                self@.players,
                player_name@,
            )),
            r matches Ok(p) ==> p@ == self@.players[first_with_name(self@.players, player_name@)],
            r matches Err(e) ==> e == PlayerExistError::NoSuchPlayer(player_name),
    {
        match self.find_player(player_name.clone()) {
            Some(p) => Ok(p),
            None => Err(PlayerExistError::NoSuchPlayer(player_name)),
        }
    }

    /// Succeeds exactly when the player's name is the current player's name
    /// (turn identity is by name).
    fn is_player_at_turn(&self, player: &Player) -> (r: Result<(), PlayerTurnError>)
        requires
            0 <= self@.current_player < self@.players.len(),
        ensures
            r is Ok <==> player@.name == self@.current().name,
            r matches Err(e) ==> e matches PlayerTurnError::PlayerOutOfTurn(n) && n@
                == player@.name,
    {
        match self.get_current_player() {
            None => Err(PlayerTurnError::NoOneIsPlaying),
            Some(current_player) => {
                let pn = player.name();
                let cn = current_player.name();
                if pn == cn {
                    Ok(())
                } else {
                    Err(PlayerTurnError::PlayerOutOfTurn(player.name()))
                }
            },
        }
    }

    /// The immutable eligibility checks for drawing: the player must exist,
    /// be at turn, hold no legal play, and face no Skip chain.
    fn can_player_draw(&self, player_name: &String) -> (r: Result<(), DrawCardsError>)
        requires
            self@.deck.discard_pile.len() > 0,
            0 <= self@.current_player < self@.players.len(),
        ensures
            r is Ok <==> self@.can_draw_spec(player_name@),
            r is Err ==> !self@.can_draw_spec(player_name@),
            !has_player(self@.players, player_name@) ==> ({
                &&& r matches Err(DrawCardsError::PlayerExistError(
                    PlayerExistError::NoSuchPlayer(n),
                )) && n@ == player_name@
            }),
            has_player(self@.players, player_name@) && self@.current().name != player_name@
                ==> ({
                &&& r matches Err(DrawCardsError::PlayerTurnError(
                    PlayerTurnError::PlayerOutOfTurn(n),
                )) && n@ == player_name@
            }),
            has_player(self@.players, player_name@) && self@.current().name == player_name@
                && self@.hand_has_playable(
                self@.players[first_with_name(self@.players, player_name@)].hand,
            ) ==> r == Err::<(), DrawCardsError>(DrawCardsError::PlayerCanPlayInstead),
            self@.can_draw_spec(player_name@) == false && has_player(
                self@.players,
                player_name@,
            ) && self@.current().name == player_name@ && !self@.hand_has_playable(
                self@.players[first_with_name(self@.players, player_name@)].hand,
            ) ==> ({
                &&& r matches Err(DrawCardsError::PlayerMustPlayInstead(c)) && c
                    == self@.top_card()
            }),
    {
        let pidx = match self.find_player_index(player_name) {
            None => {
                return Err(
                    DrawCardsError::PlayerExistError(
                        PlayerExistError::NoSuchPlayer(player_name.clone()),
                    ),
                );
            },
            Some(i) => i,
        };
        let cur_name = self.players[self.current_player].name();
        proof {
            assert(self@.current().name == cur_name@);
        }
        if !(cur_name == *player_name) {
            return Err(
                DrawCardsError::PlayerTurnError(
                    PlayerTurnError::PlayerOutOfTurn(player_name.clone()),
                ),
            );
        }
        let hand = self.players[pidx].cards();
        let m = hand.len();
        for k in 0..m
            invariant
                m == hand@.len(),
                hand@ == self@.players[pidx as int].hand,
                pidx < self@.players.len(),
                pidx as int == first_with_name(self@.players, player_name@),
                has_player(self@.players, player_name@),
                0 <= self@.current_player < self@.players.len(),
                self@.current().name == player_name@,
                self@.deck.discard_pile.len() > 0,
                forall|j: int| 0 <= j < k ==> !self@.can_play_spec(#[trigger] hand@[j]),
        {
            if self.can_play_card(&hand[k]) {
                proof {
                    assert(self@.can_play_spec(hand@[k as int]));
                    assert(self@.hand_has_playable(
                        self@.players[first_with_name(self@.players, player_name@)].hand,
                    ));
                }
                return Err(DrawCardsError::PlayerCanPlayInstead);
            }
        }
        proof {
            assert(!self@.hand_has_playable(
                self@.players[first_with_name(self@.players, player_name@)].hand,
            ));
        }
        if self.active_cards.are_cards_active() {
            let sym = self.active_cards.active_symbol();
            match sym {
                Some(CardSymbol::Skip) => {
                    return Err(DrawCardsError::PlayerMustPlayInstead(*self.deck.top_discard_card()));
                },
                _ => {},
            }
        }
        Ok(())
    }

    /// Moves up to `n` cards from the deck into the hand at `pidx`, stopping
    /// early only when the deck cannot supply another card.
    fn draw_n_cards(&mut self, pidx: usize, n: usize) -> (cards: Vec<Card>)
        requires
            pidx < old(self)@.players.len(),
            old(self)@.deck.discard_pile.len() >= 1,
        ensures
            cards@.len() == (if n <= old(self)@.deck.total() - 1 {
                n as int
            } else {
                old(self)@.deck.total() - 1
            }),
            final(self)@.players == old(self)@.players.update(
                pidx as int,
                (PlayerV {
                    hand: old(self)@.players[pidx as int].hand + cards@,
                    ..old(self)@.players[pidx as int]
                }),
            ),
            final(self)@.deck.total() == old(self)@.deck.total() - cards@.len(),
            final(self)@.deck.discard_pile.len() >= 1,
            forall|b: Card|
                #[trigger] deck_count(old(self)@.deck, b) == deck_count(final(self)@.deck, b)
                    + cards@.to_multiset().count(b) as int,
            final(self)@ == (GameV {
                players: final(self)@.players,
                deck: final(self)@.deck,
                ..old(self)@
            }),
    {
        let mut cards: Vec<Card> = Vec::new();
        let mut stop = false;
        proof {
            assert forall|b: Card|
                #[trigger] deck_count(old(self)@.deck, b) == deck_count(self@.deck, b)
                    + cards@.to_multiset().count(b) as int by {
                lemma_empty_count(b);
            }
            assert(old(self)@.players[pidx as int].hand + cards@ =~= old(self)@.players[pidx as int].hand);
            assert(self@.players =~= old(self)@.players.update(
                pidx as int,
                (PlayerV {
                    hand: old(self)@.players[pidx as int].hand + cards@,
                    ..old(self)@.players[pidx as int]
                }),
            ));
        }
        while !stop && cards.len() < n
            invariant
                pidx < old(self)@.players.len(),
                self@.players.len() == old(self)@.players.len(),
                cards@.len() <= n,
                self@.players == old(self)@.players.update(
                    pidx as int,
                    (PlayerV {
                        hand: old(self)@.players[pidx as int].hand + cards@,
                        ..old(self)@.players[pidx as int]
                    }),
                ),
                self@.deck.total() == old(self)@.deck.total() - cards@.len(),
                self@.deck.discard_pile.len() >= 1,
                forall|b: Card|
                    #[trigger] deck_count(old(self)@.deck, b) == deck_count(self@.deck, b)
                        + cards@.to_multiset().count(b) as int,
                self@ == (GameV { players: self@.players, deck: self@.deck, ..old(self)@ }),
                stop ==> self@.deck.total() == 1,
            decreases n - cards@.len() + (if stop {
                0int
            } else {
                1int
            }),
        {
            let ghost deck0 = self@.deck;
            match self.deck.draw() {
                None => {
                    stop = true;
                },
                Some(card) => {
                    let ghost before = self@.players;
                    let ghost before_cards = cards@;
                    cards.push(card);
                    self.players[pidx].give_card(card);
                    proof {
                        broadcast use lemma_count_push;

                        assert(self@.players =~= before.update(
                            pidx as int,
                            (PlayerV {
                                hand: before[pidx as int].hand.push(card),
                                ..before[pidx as int]
                            }),
                        ));
                        assert(old(self)@.players[pidx as int].hand + before_cards.push(card)
                            =~= (old(self)@.players[pidx as int].hand + before_cards).push(card));
                        assert(self@.players =~= old(self)@.players.update(
                            pidx as int,
                            (PlayerV {
                                hand: old(self)@.players[pidx as int].hand + cards@,
                                ..old(self)@.players[pidx as int]
                            }),
                        ));
                        assert forall|b: Card|
                            #[trigger] deck_count(old(self)@.deck, b) == deck_count(
                                self@.deck,
                                b,
                            ) + cards@.to_multiset().count(b) as int by {
                            assert(deck_count(deck0, b) == deck_count(self@.deck, b) + (
                            if b == card {
                                1int
                            } else {
                                0int
                            }));
                        }
                    }
                },
            }
        }
        cards
    }


    /// Draws for the named player: the summed forced amount when a draw
    /// chain is pending (which this resolves), else a single card. The cards
    /// go into the player's hand (fewer than asked only when the deck ran
    /// dry), the turn advances, and a draw notification is queued for all.
    #[verifier::rlimit(100)]
    #[verifier::spinoff_prover]
    pub fn draw_cards(&mut self, player_name: String) -> (r: Result<Vec<Card>, DrawCardsError>)
        requires
            old(self)@.wf(),
            old(self)@.status == GameStatus::Running,
            names_unique(old(self)@.players),
        ensures
            final(self)@.wf(),
            r is Ok <==> old(self)@.can_draw_spec(player_name@),
            r is Err ==> final(self)@ == old(self)@,
            !has_player(old(self)@.players, player_name@) ==> ({
                &&& r matches Err(DrawCardsError::PlayerExistError(
                    PlayerExistError::NoSuchPlayer(n),
                )) && n@ == player_name@
            }),
            has_player(old(self)@.players, player_name@) && old(self)@.current().name
                != player_name@ ==> ({
                &&& r matches Err(DrawCardsError::PlayerTurnError(
                    PlayerTurnError::PlayerOutOfTurn(n),
                )) && n@ == player_name@
            }),
            has_player(old(self)@.players, player_name@) && old(self)@.current().name
                == player_name@ && old(self)@.hand_has_playable(
                old(self)@.players[first_with_name(old(self)@.players, player_name@)].hand,
            ) ==> r == Err::<Vec<Card>, DrawCardsError>(DrawCardsError::PlayerCanPlayInstead),
            !old(self)@.can_draw_spec(player_name@) && has_player(
                old(self)@.players,
                player_name@,
            ) && old(self)@.current().name == player_name@ && !old(self)@.hand_has_playable(
                old(self)@.players[first_with_name(old(self)@.players, player_name@)].hand,
            ) ==> ({
                &&& r matches Err(DrawCardsError::PlayerMustPlayInstead(c)) && c == old(
                    self,
                )@.top_card()
            }),
            names_unique(final(self)@.players),
            r matches Ok(cards) ==> draw_post(old(self)@, final(self)@, player_name@, cards@),
    {
        match self.can_player_draw(&player_name) {
            Err(e) => {
                return Err(e);
            },
            Ok(()) => {},
        }
        let n_players = self.players.len();
        let pidx = match self.find_player_index(&player_name) {
            Some(i) => i,
            None => {
                proof {
                    assert(false);
                }
                return Err(DrawCardsError::PlayerCanPlayInstead);
            },
        };
        proof {
            lemma_sum_hands_nonneg(old(self)@.players);
            assert(self@.deck.discard_pile.len() <= CARDS_TOTAL_IN_GAME);
            assert(4 * self@.active_cards.len() <= u32::MAX);
            let cur = old(self)@.current_player;
            assert(old(self)@.players[cur].name == player_name@);
            assert(is_first_with_name(old(self)@.players, player_name@, pidx as int));
            if (pidx as int) < cur {
                assert(old(self)@.players[pidx as int].name != old(self)@.players[cur].name);
                assert(false);
            }
            if (pidx as int) > cur {
                assert(old(self)@.players[cur].name != player_name@);
                assert(false);
            }
            assert(pidx as int == cur);
        }
        let draw_count: usize = if self.active_cards.are_cards_active() {
            let count: u32 = match self.active_cards.sum_active_draw_cards() {
                Some(c) => c,
                None => {
                    proof {
                        assert(false);
                    }
                    0
                },
            };
            self.active_cards.clear();
            proof {
                assert(count <= 4 * CARDS_TOTAL_IN_GAME);
            }
            count as usize
        } else {
            1
        };
        let ghost dc = if old(self)@.chain_active() {
            chain_draw_sum(old(self)@.active_cards)
        } else {
            1int
        };
        proof {
            assert(draw_count == dc);
        }
        let ghost deck_before_draw = self@.deck;
        let drawn = self.draw_n_cards(pidx, draw_count);
        let ghost mid = self@;
        proof {
            assert(deck_before_draw == old(self)@.deck);
            assert forall|b: Card|
                #[trigger] deck_count(old(self)@.deck, b) == deck_count(mid.deck, b)
                    + drawn@.to_multiset().count(b) as int by {
                assert(deck_count(deck_before_draw, b) == deck_count(mid.deck, b)
                    + drawn@.to_multiset().count(b) as int);
            }
            lemma_sum_hands_update(
                old(self)@.players,
                pidx as int,
                mid.players[pidx as int],
            );
            lemma_num_finished_update(
                old(self)@.players,
                pidx as int,
                mid.players[pidx as int],
            );
            assert(!mid.players[pidx as int].finished());
            assert(num_finished(mid.players) == num_finished(old(self)@.players));
            lemma_positions_wf_update(
                old(self)@.players,
                pidx as int,
                mid.players[pidx as int],
            );
        }
        let advanced = self.end_turn();
        proof {
            assert(advanced);
        }
        let next_name = match self.get_current_player() {
            Some(p) => p.name(),
            None => {
                proof {
                    assert(false);
                }
                String::new()
            },
        };
        self.message_all(WSMsg::Draw { by: player_name, next: next_name, count: draw_count });
        proof {
            assert(final(self)@.players == mid.players);
            assert(final(self)@.deck == mid.deck);
            assert(positions_wf(final(self)@.players));
            assert(chain_wf(final(self)@.active_cards));
            assert forall|i: int, j: int|
                0 <= i < j < mid.players.len() implies (#[trigger] mid.players[i]).name != (
            #[trigger] mid.players[j]).name by {
                if i != pidx as int {
                    assert(mid.players[i] == old(self)@.players[i]);
                }
                if j != pidx as int {
                    assert(mid.players[j] == old(self)@.players[j]);
                }
                assert(mid.players[pidx as int].name == old(self)@.players[pidx as int].name);
            }
        }
        Ok(drawn)
    }


    /// The immutable eligibility checks for playing: the player must exist,
    /// be at turn, and the card must be legal.
    fn can_player_play(&self, player_name: &String, card: &Card) -> (r: Result<(), PlayCardError>)
        requires
            self@.deck.discard_pile.len() > 0,
            0 <= self@.current_player < self@.players.len(),
        ensures
            r is Ok <==> self@.can_play_card_spec(player_name@, *card),
            !has_player(self@.players, player_name@) ==> ({
                &&& r matches Err(PlayCardError::PlayerExistError(
                    PlayerExistError::NoSuchPlayer(n),
                )) && n@ == player_name@
            }),
            has_player(self@.players, player_name@) && self@.current().name != player_name@
                ==> ({
                &&& r matches Err(PlayCardError::PlayerTurnError(
                    PlayerTurnError::PlayerOutOfTurn(n),
                )) && n@ == player_name@
            }),
            has_player(self@.players, player_name@) && self@.current().name == player_name@
                && !self@.can_play_spec(*card) ==> r == Err::<(), PlayCardError>(
                PlayCardError::CardCannotBePlayed(*card, self@.top_card()),
            ),
    {
        let player = match self.does_player_exist(player_name.clone()) {
            Err(e) => {
                return Err(PlayCardError::PlayerExistError(e));
            },
            Ok(p) => p,
        };
        match self.is_player_at_turn(player) {
            Err(e) => {
                return Err(PlayCardError::PlayerTurnError(e));
            },
            Ok(()) => {},
        }
        if !self.can_play_card(card) {
            return Err(PlayCardError::CardCannotBePlayed(*card, *self.deck.top_discard_card()));
        }
        Ok(())
    }

    /// Removes the claimed card from the hand at `pidx`, morphs a Black
    /// wild-family card to the chosen color, and records the finish rank
    /// the instant the hand empties.
    fn mutate_player(
        &mut self,
        pidx: usize,
        wanted_card: Card,
        maybe_new_color: Option<CardColor>,
        possible_position: usize,
    ) -> (r: Result<(Card, bool), PlayCardError>)
        requires
            pidx < old(self)@.players.len(),
            old(self)@.players[pidx as int].hand.len() > 0 ==> old(self)@.players[pidx as int].position is None,
        ensures
            r is Ok <==> old(self)@.players[pidx as int].hand.contains(wanted_card),
            r is Err ==> final(self)@ == old(self)@ && r == Err::<(Card, bool), PlayCardError>(
                PlayCardError::PlayerHasNoSuchCard(wanted_card),
            ),
            r matches Ok((played, finished)) ==> ({
                &&& played == played_outcome(wanted_card, maybe_new_color)
                &&& finished == (old(self)@.players[pidx as int].hand.len() == 1)
                &&& exists|ci: int|
                    is_first_card_index(old(self)@.players[pidx as int].hand, wanted_card, ci)
                        && final(self)@.players == old(self)@.players.update(
                        pidx as int,
                        (PlayerV {
                            hand: old(self)@.players[pidx as int].hand.remove(ci),
                            position: if finished {
                                Some(possible_position)
                            } else {
                                old(self)@.players[pidx as int].position
                            },
                            ..old(self)@.players[pidx as int]
                        }),
                    )
                &&& final(self)@ == (GameV { players: final(self)@.players, ..old(self)@ })
            }),
    {
        let ghost before = self@.players;
        let res = self.players[pidx].play_card_by_eq(wanted_card);
        let removed = match res {
            Err(e) => {
                proof {
                    assert(self@.players =~= before);
                }
                return Err(PlayCardError::PlayerHasNoSuchCard(wanted_card));
            },
            Ok(c) => c,
        };
        proof {
            let ci = choose|ci: int|
                is_first_card_index(before[pidx as int].hand, wanted_card, ci) && (
                #[trigger] self@.players[pidx as int]) == (PlayerV {
                    hand: before[pidx as int].hand.remove(ci),
                    ..before[pidx as int]
                })
                || is_first_card_index(before[pidx as int].hand, wanted_card, ci);
        }
        let mut played_card = removed;
        if played_card.should_be_black() && played_card.color == CardColor::Black {
            if let Some(color) = maybe_new_color {
                played_card = match played_card.morph_black_card(color) {
                    Some(c) => c,
                    None => played_card,
                };
            }
        }
        let player_finished = self.players[pidx].cards().len() == 0;
        if player_finished {
            self.players[pidx].set_position(possible_position);
        }
        Ok((played_card, player_finished))
    }

    /// Resolves the played card's effect: a plain or wild card breaks any
    /// chain, a Reverse flips the direction, and a stackable effect card
    /// starts or extends the chain.
    fn handle_played_card(&mut self, played_card: &Card)
        requires
            chain_wf(old(self)@.active_cards),
            (played_card.symbol == CardSymbol::Skip || played_card.symbol == CardSymbol::Draw2
                || played_card.symbol == CardSymbol::Draw4) && old(self)@.chain_active()
                ==> played_card.symbol == old(self)@.active_symbol(),
        ensures
            chain_wf(final(self)@.active_cards),
            final(self)@ == (GameV {
                active_cards: final(self)@.active_cards,
                is_clockwise: final(self)@.is_clockwise,
                ..old(self)@
            }),
            final(self)@.is_clockwise == (if played_card.symbol == CardSymbol::Reverse {
                !old(self)@.is_clockwise
            } else {
                old(self)@.is_clockwise
            }),
            final(self)@.active_cards == (if played_card.symbol == CardSymbol::Skip
                || played_card.symbol == CardSymbol::Draw2 || played_card.symbol
                == CardSymbol::Draw4 {
                old(self)@.active_cards.push(*played_card)
            } else {
                Seq::<Card>::empty()
            }),
    {
        match played_card.symbol {
            CardSymbol::Value(_) => self.active_cards.clear(),
            CardSymbol::Wild => self.active_cards.clear(),
            CardSymbol::Reverse => {
                self.reverse();
                self.active_cards.clear();
            },
            _ => {
                match self.active_cards.push(*played_card) {
                    Ok(()) => {},
                    Err(_) => {},
                }
            },
        }
    }

    /// Queues the play notification, a finish notification when the hand
    /// emptied, and — when the turn came back to the acting player's name,
    /// which ends the game — a final status broadcast.
    fn play_card_messages(
        &mut self,
        player_finished: bool,
        player_name: String,
        played_card: Card,
    ) -> (r: Result<(), CreateStatusError>)
        requires
            0 <= old(self)@.current_player < old(self)@.players.len(),
            old(self)@.status == GameStatus::Running,
        ensures
            r is Ok,
            final(self)@ == (GameV {
                status: final(self)@.status,
                messages: final(self)@.messages,
                ..old(self)@
            }),
            final(self)@.status == (if old(self)@.current().name == player_name@ {
                GameStatus::Finished
            } else {
                GameStatus::Running
            }),
            final(self)@.messages.len() == old(self)@.messages.len() + old(self)@.players.len()
                + (if player_finished {
                old(self)@.players.len() as int
            } else {
                0int
            }) + (if old(self)@.current().name == player_name@ {
                old(self)@.players.len() as int
            } else {
                0int
            }),
            forall|k: int|
                0 <= k < old(self)@.players.len() ==> {
                    &&& (#[trigger] final(self)@.messages[old(self)@.messages.len()
                        + k]).recipient@ == old(self)@.players[k].name
                    &&& final(self)@.messages[old(self)@.messages.len() + k].msg matches
                        WSMsg::PlayCard { by, next, card } && by@ == player_name@ && card
                        == played_card && next@ == old(self)@.current().name
                },
            player_finished ==> forall|k: int|
                0 <= k < old(self)@.players.len() ==> {
                    &&& (#[trigger] final(self)@.messages[old(self)@.messages.len() + old(
                        self,
                    )@.players.len() + k]).recipient@ == old(self)@.players[k].name
                    &&& final(self)@.messages[old(self)@.messages.len() + old(
                        self,
                    )@.players.len() + k].msg matches WSMsg::Finish { player } && player@
                        == player_name@
                },
            old(self)@.current().name == player_name@ ==> forall|k: int|
                0 <= k < old(self)@.players.len() ==> {
                    &&& final(self)@.messages[old(self)@.messages.len() + old(
                        self,
                    )@.players.len() + (if player_finished {
                        old(self)@.players.len() as int
                    } else {
                        0int
                    }) + k].recipient@ == (#[trigger] old(self)@.players[k]).name
                    &&& final(self)@.messages[old(self)@.messages.len() + old(
                        self,
                    )@.players.len() + (if player_finished {
                        old(self)@.players.len() as int
                    } else {
                        0int
                    }) + k].msg matches WSMsg::Status { recipient } && recipient@ == old(
                        self,
                    )@.players[k].name
                },
    {
        let new_player_name = match self.get_current_player() {
            Some(p) => p.name(),
            None => {
                proof {
                    assert(false);
                }
                String::new()
            },
        };
        proof {
            assert(new_player_name@ == old(self)@.current().name);
        }
        self.message_all(
            WSMsg::PlayCard {
                by: player_name.clone(),
                next: new_player_name.clone(),
                card: played_card,
            },
        );
        let ghost m1 = self@.messages;
        if player_finished {
            self.message_all(WSMsg::Finish { player: player_name.clone() });
        }
        let ghost m2 = self@.messages;
        proof {
            assert forall|t: int| 0 <= t < m1.len() implies #[trigger] m2[t] == m1[t] by {
                assert(m2.subrange(0, m1.len() as int)[t] == m2[t]);
            }
        }
        if new_player_name == player_name {
            self.status = GameStatus::Finished;
            match self.status_message_all() {
                Ok(()) => {},
                Err(e) => {
                    return Err(e);
                },
            }
        }
        proof {
            let m3 = self@.messages;
            assert forall|t: int| 0 <= t < m2.len() implies #[trigger] m3[t] == m2[t] by {
                assert(m3.subrange(0, m2.len() as int)[t] == m3[t]);
            }
            let base = old(self)@.messages.len() as int;
            assert forall|k: int| 0 <= k < old(self)@.players.len() implies #[trigger] m3[base
                + k] == m1[base + k] by {
                assert(m2[base + k] == m1[base + k]);
            }
        }
        Ok(())
    }


    /// Plays the claimed card for the named player: validates existence,
    /// turn and legality, removes the first matching card from the hand,
    /// morphs a Black card to the chosen color, records the finish rank the
    /// instant the hand empties, resolves the effect, puts the card on the
    /// discard top, advances the turn and queues the notifications. Any
    /// failure leaves the game unchanged.
    #[verifier::rlimit(100)]
    #[verifier::spinoff_prover]
    pub fn play_card(
        &mut self,
        player_name: String,
        card: Card,
        maybe_new_color: Option<CardColor>,
    ) -> (r: Result<(), PlayCardError>)
        requires
            old(self)@.wf(),
            old(self)@.status == GameStatus::Running,
            names_unique(old(self)@.players),
            maybe_new_color matches Some(c) ==> c != CardColor::Black,
        ensures
            final(self)@.wf(),
            r is Err ==> final(self)@ == old(self)@,
            r is Ok <==> old(self)@.can_play_card_spec(player_name@, card) && old(
                self,
            )@.players[first_with_name(old(self)@.players, player_name@)].hand.contains(card),
            !has_player(old(self)@.players, player_name@) ==> ({
                &&& r matches Err(PlayCardError::PlayerExistError(
                    PlayerExistError::NoSuchPlayer(n),
                )) && n@ == player_name@
            }),
            has_player(old(self)@.players, player_name@) && old(self)@.current().name
                != player_name@ ==> ({
                &&& r matches Err(PlayCardError::PlayerTurnError(
                    PlayerTurnError::PlayerOutOfTurn(n),
                )) && n@ == player_name@
            }),
            has_player(old(self)@.players, player_name@) && old(self)@.current().name
                == player_name@ && !old(self)@.can_play_spec(card) ==> r == Err::<
                (),
                PlayCardError,
            >(PlayCardError::CardCannotBePlayed(card, old(self)@.top_card())),
            old(self)@.can_play_card_spec(player_name@, card) && !old(
                self,
            )@.players[first_with_name(old(self)@.players, player_name@)].hand.contains(card)
                ==> r == Err::<(), PlayCardError>(PlayCardError::PlayerHasNoSuchCard(card)),
            names_unique(final(self)@.players),
            r is Ok ==> play_post(old(self)@, final(self)@, player_name@, card, maybe_new_color),
    {
        match self.can_player_play(&player_name, &card) {
            Err(e) => {
                return Err(e);
            },
            Ok(()) => {},
        }
        let possible_position = self.get_finished_players().len();
        let n_players = self.players.len();
        proof {
            assert(old(self)@.players.len() <= usize::MAX);
        }
        let pidx = match self.find_player_index(&player_name) {
            Some(i) => i,
            None => {
                proof {
                    assert(false);
                }
                return Err(
                    PlayCardError::PlayerExistError(PlayerExistError::NoSuchPlayer(player_name)),
                );
            },
        };
        proof {
            let cur = old(self)@.current_player;
            assert(old(self)@.players[cur].name == player_name@);
            assert(is_first_with_name(old(self)@.players, player_name@, pidx as int));
            if (pidx as int) < cur {
                assert(old(self)@.players[pidx as int].name != old(self)@.players[cur].name);
                assert(false);
            }
            if (pidx as int) > cur {
                assert(old(self)@.players[cur].name != player_name@);
                assert(false);
            }
            assert(pidx as int == cur);
            assert(!old(self)@.players[pidx as int].finished());
            assert(old(self)@.players[pidx as int].position is None);
        }
        let (played_card, player_finished) = match self.mutate_player(
            pidx,
            card,
            maybe_new_color,
            possible_position,
        ) {
            Err(e) => {
                return Err(e);
            },
            Ok(t) => t,
        };
        let ghost mid1 = self@;
        proof {
            lemma_sum_hands_update(old(self)@.players, pidx as int, mid1.players[pidx as int]);
            lemma_num_finished_update(old(self)@.players, pidx as int, mid1.players[pidx as int]);
            lemma_positions_wf_update(old(self)@.players, pidx as int, mid1.players[pidx as int]);
            lemma_num_finished_bounds(mid1.players);
            assert(played_card.symbol == card.symbol);
        }
        self.handle_played_card(&played_card);
        self.deck.play(played_card);
        let ghost mid2 = self@;
        let advanced = self.end_turn();
        let ghost mid3 = self@;
        match self.play_card_messages(player_finished, player_name, played_card) {
            Ok(()) => {},
            Err(_) => {
                proof {
                    assert(false);
                }
            },
        }
        proof {
            assert(self@.players == mid1.players);
            assert forall|k: int|
                0 <= k < old(self)@.players.len() implies (#[trigger] mid1.players[k]).name
                == old(self)@.players[k].name by {
                if k != pidx as int {
                    assert(mid1.players[k] == old(self)@.players[k]);
                }
            }
            assert forall|i: int, j: int|
                0 <= i < j < mid1.players.len() implies (#[trigger] mid1.players[i]).name != (
            #[trigger] mid1.players[j]).name by {
                if i != pidx as int {
                    assert(mid1.players[i] == old(self)@.players[i]);
                }
                if j != pidx as int {
                    assert(mid1.players[j] == old(self)@.players[j]);
                }
            }
            let base = old(self)@.messages.len() as int;
            let np = old(self)@.players.len() as int;
            if player_finished {
                assert forall|k: int| 0 <= k < np implies ({
                    &&& self@.messages[base + np + k].recipient@ == (
                    #[trigger] old(self)@.players[k]).name
                    &&& self@.messages[base + np + k].msg matches WSMsg::Finish { player }
                        && player@ == player_name@
                }) by {
                    assert(self@.messages[base + np + k].recipient@ == mid3.players[k].name);
                    assert(mid3.players[k].name == old(self)@.players[k].name);
                }
            }
            if self@.status == GameStatus::Finished {
                let off = base + np + (if player_finished {
                    np
                } else {
                    0int
                });
                assert forall|k: int| 0 <= k < np implies ({
                    &&& self@.messages[off + k].recipient@ == (
                    #[trigger] old(self)@.players[k]).name
                    &&& self@.messages[off + k].msg matches WSMsg::Status { recipient }
                        && recipient@ == old(self)@.players[k].name
                }) by {
                    assert(self@.messages[off + k].recipient@ == mid3.players[k].name);
                    assert(mid3.players[k].name == old(self)@.players[k].name);
                }
            }
            assert(positions_wf(self@.players));
            assert(chain_wf(self@.active_cards));
            if self@.status == GameStatus::Running {
                assert(mid3.current().name != player_name@);
                assert(advanced);
                assert(num_finished(self@.players) < self@.players.len());
                assert(!self@.current().finished());
            }
        }
        Ok(())
    }


    /// Rebuilds a running game from explicit parts, accepting them only
    /// when they form a legal state: at least one player, every hand dealt
    /// and nobody finished yet, unique names, a founded discard pile, the
    /// turn pointer in range, and the full fixed card set distributed over
    /// the piles and hands. The chain starts empty.
    pub fn new_running(
        id: String,
        players: Vec<Player>,
        deck: Deck,
        current_player: usize,
        is_clockwise: bool,
    ) -> (r: Option<Game>)
        ensures
            r is Some <==> running_parts_ok(
                players@.map_values(|p: Player| p@),
                deck@,
                current_player as int,
            ),
            r matches Some(g) ==> {
                &&& g@.wf()
                &&& g@.status == GameStatus::Running
                &&& names_unique(g@.players)
                &&& g@.players == players@.map_values(|p: Player| p@)
                &&& g@.deck == deck@
                &&& g@.current_player == current_player as int
                &&& g@.is_clockwise == is_clockwise
                &&& g@.active_cards.len() == 0
                &&& g@.messages.len() == 0
                &&& g@.id == id@
            },
    {
        let n = players.len();
        if n == 0 || current_player >= n {
            return None;
        }
        if deck.discard_pile_size() == 0 {
            return None;
        }
        let ghost pv = players@.map_values(|p: Player| p@);
        for i in 0..n
            invariant
                n == pv.len(),
                pv == players@.map_values(|p: Player| p@),
                forall|t: int|
                    0 <= t < i ==> (#[trigger] pv[t]).hand.len() > 0 && pv[t].position is None,
        {
            if players[i].cards().len() == 0 {
                proof {
                    assert(pv[i as int].hand.len() == 0);
                }
                return None;
            }
            if players[i].position().is_some() {
                proof {
                    assert(pv[i as int].position is Some);
                }
                return None;
            }
        }
        for i in 0..n
            invariant
                n == pv.len(),
                pv == players@.map_values(|p: Player| p@),
                forall|t: int, u: int|
                    0 <= t < u < pv.len() && u < i ==> (#[trigger] pv[t]).name != (
                    #[trigger] pv[u]).name,
        {
            for j in 0..i
                invariant
                    n == pv.len(),
                    i < n,
                    pv == players@.map_values(|p: Player| p@),
                    forall|t: int, u: int|
                        0 <= t < u < pv.len() && u < i ==> (#[trigger] pv[t]).name != (
                        #[trigger] pv[u]).name,
                    forall|t: int| 0 <= t < j ==> (#[trigger] pv[t]).name != pv[i as int].name,
            {
                let a = players[j].name();
                let b = players[i].name();
                if a == b {
                    proof {
                        assert(pv[j as int].name == pv[i as int].name);
                        assert(!names_unique(pv));
                    }
                    return None;
                }
            }
        }
        let mut acc = deck.draw_pile_size();
        if acc > CARDS_TOTAL_IN_GAME {
            proof {
                lemma_sum_hands_nonneg(pv);
            }
            return None;
        }
        if deck.discard_pile_size() > CARDS_TOTAL_IN_GAME - acc {
            proof {
                lemma_sum_hands_nonneg(pv);
            }
            return None;
        }
        acc = acc + deck.discard_pile_size();
        for i in 0..n
            invariant
                n == pv.len(),
                pv == players@.map_values(|p: Player| p@),
                acc <= CARDS_TOTAL_IN_GAME,
                acc == deck@.total() + sum_hands(pv.take(i as int)),
        {
            proof {
                assert(pv.take((i + 1) as int).drop_last() =~= pv.take(i as int));
                assert(pv.take((i + 1) as int).last() == pv[i as int]);
            }
            let h = players[i].cards().len();
            proof {
                assert(pv[i as int].hand.len() == h as int);
            }
            if h > CARDS_TOTAL_IN_GAME - acc {
                proof {
                    lemma_sum_hands_prefix(pv, (i + 1) as int);
                }
                return None;
            }
            acc = acc + h;
        }
        proof {
            assert(pv.take(n as int) =~= pv);
        }
        if acc != CARDS_TOTAL_IN_GAME {
            return None;
        }
        proof {
            assert(running_parts_ok(pv, deck@, current_player as int));
        }
        let g = Game {
            id,
            status: GameStatus::Running,
            players,
            deck,
            current_player,
            active_cards: ActiveCards::new(),
            is_clockwise,
            messages: Vec::new(),
        };
        proof {
            lemma_none_finished(g@.players);
            assert(positions_wf(g@.players));
            assert(chain_wf(g@.active_cards));
        }
        Some(g)
    }

    /// Hands the queued notifications to the collaborator and empties the
    /// outbox.
    pub fn take_messages(&mut self) -> (r: Vec<AddressedWSMsg>)
        ensures
            r@ == old(self)@.messages,
            final(self)@ == (GameV { messages: Seq::<AddressedWSMsg>::empty(), ..old(self)@ }),
    {
        let mut out: Vec<AddressedWSMsg> = Vec::new();
        core::mem::swap(&mut self.messages, &mut out);
        out
    }
}

} // verus!
