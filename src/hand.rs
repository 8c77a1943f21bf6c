//! The cards held by one player, and which of them may be played next.

use crate::card::{Card, Suit};
use crate::trick::{lead_card, lemma_winner, trick_winner, Trick};
use vstd::prelude::*;

verus! {

/// Number of cards dealt to a full hand.
pub const HAND_SIZE: usize = 13;

/// Why a hand refused an operation.
#[derive(Clone, Copy, Debug, PartialEq, Eq, Structural)]
pub enum HandError {
    /// The hand already holds `HAND_SIZE` cards.
    HandFull,
    /// Moves are computed only for a fully dealt hand.
    IncompleteHand,
    /// No held card may be played.
    NoPlayableMoves,
}

/// A held card and whether it may still be played. Every card is dealt
/// playable; nothing here withdraws a card once played.
#[derive(Clone, Copy)]
struct HeldCard {
    card: Card,
    playable: bool,
}

/// The cards of `cards` in suit `s`, in their order.
pub open spec fn of_suit(cards: Seq<Card>, s: Suit) -> Seq<Card> {
    cards.filter(|c: Card| c.suit == s)
}

/// The cards of `cards` in suit `s` whose face value exceeds `floor`, in their order.
pub open spec fn above(cards: Seq<Card>, s: Suit, floor: nat) -> Seq<Card> {
    cards.filter(|c: Card| c.suit == s && c.rank.spec_value() > floor)
}

/// The cards of `held` that may be played to a trick in which `plays` were
/// played. Anything goes when the trick is empty. Otherwise the first of
/// these that is not empty: the cards that follow suit and beat the winning
/// card; the cards that follow suit; the trumps that beat the winning card;
/// the whole hand.
pub open spec fn legal_moves(held: Seq<Card>, plays: Seq<Card>) -> Seq<Card> {
    match (lead_card(plays), trick_winner(plays)) {
        (Some(lead), Some(win)) => {
            let follow_and_win = above(held, lead.suit, win.rank.spec_value());
            let follow = of_suit(held, lead.suit);
            let trump_and_win = above(held, Suit::Spades, win.rank.spec_value());
            if follow_and_win.len() > 0 {
                follow_and_win
            } else if follow.len() > 0 {
                follow
            } else if trump_and_win.len() > 0 {
                trump_and_win
            } else {
                held
            }
        },
        _ => held,
    }
}

/// `c` follows the suit led in `plays` and outranks the card winning it.
pub open spec fn follows_and_wins(c: Card, plays: Seq<Card>) -> bool {
    &&& c.suit == plays[0].suit
    &&& c.rank.spec_value() > trick_winner(plays)->Some_0.rank.spec_value()
}

/// What a fully dealt hand may play to a trick that has begun: at least one
/// card, only cards of the hand, and, where the hand can follow suit and
/// beat the winning card, only such cards.
pub proof fn lemma_moves_legal(held: Seq<Card>, plays: Seq<Card>)
    requires
        held.len() == HAND_SIZE,
        plays.len() > 0,
    ensures
        legal_moves(held, plays).len() > 0,
        forall|i: int|
            0 <= i < legal_moves(held, plays).len() ==> held.contains(
                #[trigger] legal_moves(held, plays)[i],
            ),
        (exists|j: int| 0 <= j < held.len() && follows_and_wins(#[trigger] held[j], plays))
            ==> forall|i: int|
            0 <= i < legal_moves(held, plays).len() ==> follows_and_wins(
                #[trigger] legal_moves(held, plays)[i],
                plays,
            ),
{
    broadcast use vstd::seq_lib::group_filter_ensures, vstd::seq::group_seq_axioms;

    lemma_winner(plays);
    let lead = plays[0];
    let win = trick_winner(plays)->Some_0;
    let moves = legal_moves(held, plays);
    let follow_and_win = |c: Card| c.suit == lead.suit && c.rank.spec_value() > win.rank.spec_value();
    let follow = |c: Card| c.suit == lead.suit;
    let trump_and_win = |c: Card| c.suit == Suit::Spades && c.rank.spec_value() > win.rank.spec_value();
    assert forall|i: int| 0 <= i < moves.len() implies held.contains(#[trigger] moves[i]) by {
        assert(moves.contains(moves[i]));
        if moves == held.filter(follow_and_win) {
            held.lemma_filter_contains_rev(follow_and_win, moves[i]);
        } else if moves == held.filter(follow) {
            held.lemma_filter_contains_rev(follow, moves[i]);
        } else if moves == held.filter(trump_and_win) {
            held.lemma_filter_contains_rev(trump_and_win, moves[i]);
        }
    }
    if exists|j: int| 0 <= j < held.len() && follows_and_wins(#[trigger] held[j], plays) {
        let j = choose|j: int| 0 <= j < held.len() && follows_and_wins(#[trigger] held[j], plays);
        assert(above(held, lead.suit, win.rank.spec_value()).contains(held[j]));
    }
}

/// The cards held by one player.
pub struct Hand {
    cards: Vec<HeldCard>,
}

impl View for Hand {
    type V = Seq<Card>;

    closed spec fn view(&self) -> Seq<Card> {
        self.cards@.map_values(|h: HeldCard| h.card)
    }
}

impl Hand {
    /// At most `HAND_SIZE` cards, all of them playable.
    pub closed spec fn wf(&self) -> bool {
        &&& self.cards@.len() <= HAND_SIZE
        &&& forall|i: int| 0 <= i < self.cards@.len() ==> (#[trigger] self.cards@[i]).playable
    }

    /// An empty hand.
    pub fn new() -> (h: Hand)
        ensures
            h.wf(),
            h@ == Seq::<Card>::empty(),
    {
        let h = Hand { cards: Vec::new() };
        assert(h@ =~= Seq::<Card>::empty());
        h
    }

    /// Takes `card` into the hand, unless the hand is full.
    pub fn add(&mut self, card: &Card) -> (r: Result<(), HandError>)
        requires
            old(self).wf(),
        ensures
            final(self).wf(),
            old(self)@.len() >= HAND_SIZE ==> r == Err::<(), HandError>(HandError::HandFull),
            old(self)@.len() < HAND_SIZE ==> r is Ok,
            r is Ok ==> final(self)@ == old(self)@.push(*card),
            r is Err ==> final(self)@ == old(self)@,
    {
        if self.cards.len() >= HAND_SIZE {
            return Err(HandError::HandFull);
        }
        let ghost before = self@;
        self.cards.push(HeldCard { card: *card, playable: true });
        assert(self@ =~= before.push(*card));
        Ok(())
    }

    /// The held cards that may still be played, in the order they were dealt.
    fn playables(&self) -> (r: Vec<Card>)
        requires
            self.wf(),
        ensures
            r@ == self@,
    {
        let mut r: Vec<Card> = Vec::new();
        let mut i: usize = 0;
        while i < self.cards.len()
            invariant
                self.wf(),
                i <= self.cards@.len(),
                r@ == self@.take(i as int),
            decreases self.cards@.len() - i,
        {
            let h = self.cards[i];
            if h.playable {
                r.push(h.card);
            }
            assert(self@.take(i + 1) =~= self@.take(i as int).push(h.card));
            i = i + 1;
        }
        assert(self@.take(i as int) =~= self@);
        r
    }

    /// The cards this hand may play next to `trick`; see `legal_moves`.
    /// Only a fully dealt hand is served: cards are not yet withdrawn from
    /// the hand as they are played, so moves for a partly played hand would
    /// offer cards that are gone.
    pub fn get_moves(&self, trick: &Trick) -> (r: Result<Vec<Card>, HandError>)
        requires
            self.wf(),
            trick.wf(),
        ensures
            self@.len() != HAND_SIZE ==> r == Err::<Vec<Card>, HandError>(HandError::IncompleteHand),
            self@.len() == HAND_SIZE ==> r is Ok && r->Ok_0@ == legal_moves(self@, trick@.plays),
    {
        if self.cards.len() != HAND_SIZE {
            return Err(HandError::IncompleteHand);
        }
        let playables = self.playables();
        let leader = trick.leader();
        let winner = trick.winner();
        if leader.is_none() || winner.is_none() {
            return Ok(playables);
        }
        let lead_suit = leader.unwrap().get_suit();
        let floor = winner.unwrap().get_rank().value();
        let moves = select(&playables, &lead_suit, floor);
        if moves.len() > 0 {
            return Ok(moves);
        }
        let moves = select(&playables, &lead_suit, 0);
        proof {
            let s = lead_suit;
            assert((|c: Card| c.suit == s && c.rank.spec_value() > 0) =~= (|c: Card| c.suit == s));
            assert(moves@ == of_suit(self@, s));
        }
        if moves.len() > 0 {
            return Ok(moves);
        }
        let moves = select(&playables, &Suit::Spades, floor);
        if moves.len() > 0 {
            return Ok(moves);
        }
        if playables.len() > 0 {
            Ok(playables)
        } else {
            Err(HandError::NoPlayableMoves)
        }
    }
}

/// The cards of `cards` in `suit` with face value above `floor`, in their order.
fn select(cards: &Vec<Card>, suit: &Suit, floor: u8) -> (r: Vec<Card>)
    ensures
        r@ == above(cards@, *suit, floor as nat),
{
    let mut r: Vec<Card> = Vec::new();
    let mut i: usize = 0;
    while i < cards.len()
        invariant
            i <= cards@.len(),
            r@ == above(cards@.take(i as int), *suit, floor as nat),
        decreases cards@.len() - i,
    {
        let c = cards[i];
        if c.suit == *suit && c.rank.value() > floor {
            r.push(c);
        }
        proof {
            reveal(Seq::filter);
            assert(cards@.take(i + 1).drop_last() =~= cards@.take(i as int));
            assert(cards@.take(i + 1).last() == c);
        }
        i = i + 1;
    }
    assert(cards@.take(i as int) =~= cards@);
    r
}

} // verus!
