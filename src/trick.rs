//! One round of play: up to four cards, one per seat, placed in turn order.

use crate::card::{is_trump, Card, Rank, Suit};
use vstd::prelude::*;

verus! {

/// Number of seats at the table, and of cards in a full trick.
pub const SEATS: usize = 4;

/// Why a trick refused an operation.
#[derive(Clone, Copy, Debug, PartialEq, Eq, Structural)]
pub enum TrickError {
    /// The leading seat given to `Trick::new` is not a seat.
    InvalidSeat,
    /// The seat given to `Trick::add` is not a seat.
    SeatOutOfRange,
    /// That seat has already played to this trick.
    SeatAlreadyPlayed,
    /// Another seat is due to play first.
    OutOfTurn,
}

/// The seat that plays `k`-th (from 0) in a trick led from `lead`.
pub open spec fn seat(lead: int, k: int) -> int {
    (lead + k) % (SEATS as int)
}

/// A trick seen as its leading seat and the cards played so far, in order.
pub struct TrickView {
    pub lead: nat,
    pub plays: Seq<Card>,
}

impl TrickView {
    /// Some card of the trick was played from seat `p`.
    pub open spec fn seat_taken(self, p: int) -> bool {
        exists|k: int| 0 <= k < self.plays.len() && #[trigger] seat(self.lead as int, k) == p
    }

    /// What `Trick::add` answers for a card at seat `p`.
    pub open spec fn add_outcome(self, p: int) -> Result<(), TrickError> {
        if !(0 <= p < SEATS) {
            Err(TrickError::SeatOutOfRange)
        } else if self.seat_taken(p) {
            Err(TrickError::SeatAlreadyPlayed)
        } else if p != seat(self.lead as int, self.plays.len() as int) {
            Err(TrickError::OutOfTurn)
        } else {
            Ok(())
        }
    }

    /// The trick after `c` is played by the seat that is due.
    pub open spec fn played(self, c: Card) -> TrickView {
        TrickView { lead: self.lead, plays: self.plays.push(c) }
    }
}

/// The card that opened the trick, if any.
pub open spec fn lead_card(plays: Seq<Card>) -> Option<Card> {
    if plays.len() == 0 {
        None
    } else {
        Some(plays[0])
    }
}

/// The highest rank among the cards of suit `s`, if there is one.
pub open spec fn top_rank(cards: Seq<Card>, s: Suit) -> Option<Rank>
    decreases cards.len(),
{
    if cards.len() == 0 {
        None
    } else {
        let rest = top_rank(cards.drop_last(), s);
        let c = cards.last();
        if c.suit != s {
            rest
        } else {
            match rest {
                Some(r) if r.spec_value() >= c.rank.spec_value() => rest,
                _ => Some(c.rank),
            }
        }
    }
}

/// The card winning a trick in which `plays` were played: the highest
/// trump if a trump was played, else the highest card of the led suit.
pub open spec fn trick_winner(plays: Seq<Card>) -> Option<Card> {
    if plays.len() == 0 {
        None
    } else {
        match top_rank(plays, Suit::Spades) {
            Some(r) => Some(Card { rank: r, suit: Suit::Spades }),
            None => match top_rank(plays, plays[0].suit) {
                Some(r) => Some(Card { rank: r, suit: plays[0].suit }),
                None => None,
            },
        }
    }
}

/// `c` is a card of suit `s` among `cards`, and no card of that suit there
/// outranks it.
pub open spec fn is_top_of_suit(cards: Seq<Card>, c: Card, s: Suit) -> bool {
    &&& c.suit == s
    &&& cards.contains(c)
    &&& forall|i: int|
        0 <= i < cards.len() && (#[trigger] cards[i]).suit == s ==> cards[i].rank.spec_value()
            <= c.rank.spec_value()
}

/// `top_rank` is the highest rank among the cards of the suit, and it is
/// missing exactly when no card of that suit is there.
pub proof fn lemma_top_rank(cards: Seq<Card>, s: Suit)
    ensures
        top_rank(cards, s) is None <==> forall|i: int|
            0 <= i < cards.len() ==> (#[trigger] cards[i]).suit != s,
        top_rank(cards, s) matches Some(r) ==> cards.contains(Card { rank: r, suit: s }),
        top_rank(cards, s) matches Some(r) ==> forall|i: int|
            0 <= i < cards.len() && (#[trigger] cards[i]).suit == s ==> cards[i].rank.spec_value()
                <= r.spec_value(),
    decreases cards.len(),
{
    if cards.len() > 0 {
        let rest = cards.drop_last();
        lemma_top_rank(rest, s);
        assert(forall|i: int| 0 <= i < rest.len() ==> rest[i] == cards[i]);
        let last = cards.len() - 1;
        if top_rank(cards, s) == top_rank(rest, s) {
            if let Some(r) = top_rank(rest, s) {
                let j = choose|j: int| 0 <= j < rest.len() && rest[j] == Card { rank: r, suit: s };
                assert(cards[j] == Card { rank: r, suit: s });
            }
        } else {
            assert(cards[last] == Card { rank: cards[last].rank, suit: s });
        }
    }
}

/// Who wins a trick. Nobody wins an empty trick; the only card of a
/// one-card trick wins it. Once a trump is played, the highest trump played
/// wins, whatever else was played. Otherwise the highest card of the suit
/// led wins.
pub proof fn lemma_winner(plays: Seq<Card>)
    ensures
        plays.len() == 0 ==> trick_winner(plays) is None,
        plays.len() == 1 ==> trick_winner(plays) == Some(plays[0]),
        (exists|i: int| 0 <= i < plays.len() && is_trump(#[trigger] plays[i].suit)) ==> {
            &&& trick_winner(plays) is Some
            &&& is_top_of_suit(plays, trick_winner(plays)->Some_0, Suit::Spades)
        },
        (plays.len() > 0 && forall|i: int|
            0 <= i < plays.len() ==> !is_trump(#[trigger] plays[i].suit)) ==> {
            &&& trick_winner(plays) is Some
            &&& is_top_of_suit(plays, trick_winner(plays)->Some_0, plays[0].suit)
        },
{
    lemma_top_rank(plays, Suit::Spades);
    if plays.len() > 0 {
        lemma_top_rank(plays, plays[0].suit);
    }
}

/// Turn order: a card is accepted exactly when the trick is not full and it
/// comes from the seat `lead + k` (round the table), where `k` cards are
/// already down. A free seat that is not due is refused as out of turn.
pub proof fn lemma_turn_order(v: TrickView, p: int)
    requires
        v.lead < SEATS,
        v.plays.len() <= SEATS,
    ensures
        v.add_outcome(p) is Ok <==> (v.plays.len() < SEATS && p == seat(
            v.lead as int,
            v.plays.len() as int,
        )),
        0 <= p < SEATS && !v.seat_taken(p) && p != seat(v.lead as int, v.plays.len() as int)
            ==> v.add_outcome(p) == Err::<(), TrickError>(TrickError::OutOfTurn),
{
    let n = v.plays.len() as int;
    if n < SEATS && p == seat(v.lead as int, n) {
        assert forall|k: int| 0 <= k < n implies #[trigger] seat(v.lead as int, k) != p by {
            lemma_seat_once(v.lead as int, k, n);
        }
    }
    if n == SEATS && p == seat(v.lead as int, n) {
        assert(seat(v.lead as int, 0) == p);
    }
}

/// No seat plays twice: after a card was accepted at seat `p`, any card
/// offered at `p` again is refused as already played.
pub proof fn lemma_no_overwrite(v: TrickView, p: int, c: Card)
    requires
        v.lead < SEATS,
        v.add_outcome(p) is Ok,
    ensures
        v.played(c).add_outcome(p) == Err::<(), TrickError>(TrickError::SeatAlreadyPlayed),
{
    let n = v.plays.len() as int;
    assert(seat(v.lead as int, n) == p);
}

/// Within one round of the table each seat comes up once.
proof fn lemma_seat_once(lead: int, j: int, k: int)
    requires
        0 <= lead < SEATS,
        0 <= j < SEATS,
        0 <= k < SEATS,
    ensures
        0 <= seat(lead, k) < SEATS,
        seat(lead, j) == seat(lead, k) <==> j == k,
{
}

/// Every seat comes up within one round of the table.
proof fn lemma_seat_turn(lead: int, p: int)
    requires
        0 <= lead < SEATS,
        0 <= p < SEATS,
    ensures
        seat(lead, (p + SEATS - lead) % (SEATS as int)) == p,
        0 <= (p + SEATS - lead) % (SEATS as int) < SEATS,
{
}

/// A trick: one slot per seat, the seat that led, and how many have played.
pub struct Trick {
    cards: Vec<Option<Card>>,
    lead: usize,
    size: usize,
}

impl View for Trick {
    type V = TrickView;

    closed spec fn view(&self) -> TrickView {
        TrickView {
            lead: self.lead as nat,
            plays: Seq::new(
                self.size as nat,
                |k: int| self.cards@[seat(self.lead as int, k)]->Some_0,
            ),
        }
    }
}

impl Trick {
    /// The slots hold exactly the first `size` seats from `lead`, in order.
    pub closed spec fn wf(&self) -> bool {
        &&& self.cards@.len() == SEATS
        &&& self.lead < SEATS
        &&& self.size <= SEATS
        &&& forall|k: int|
            0 <= k < SEATS ==> (#[trigger] self.cards@[seat(self.lead as int, k)] is Some <==> k
                < self.size)
    }

    /// The view of a well-formed trick is led from a seat and holds at most
    /// one card per seat.
    pub proof fn lemma_view(&self)
        requires
            self.wf(),
        ensures
            self@.lead < SEATS,
            self@.plays.len() <= SEATS,
    {
    }

    /// An empty trick led from seat `lead`.
    pub fn new(lead: usize) -> (r: Result<Trick, TrickError>)
        ensures
            lead < SEATS <==> r is Ok,
            r is Err ==> r == Err::<Trick, TrickError>(TrickError::InvalidSeat),
            r matches Ok(t) ==> t.wf() && t@.lead == lead && t@.plays.len() == 0,
    {
        if lead > SEATS - 1 {
            return Err(TrickError::InvalidSeat);
        }
        let mut cards: Vec<Option<Card>> = Vec::new();
        let mut i: usize = 0;
        while i < SEATS
            invariant
                i <= SEATS,
                cards@.len() == i,
                forall|j: int| 0 <= j < i ==> cards@[j] is None,
            decreases SEATS - i,
        {
            cards.push(None);
            i = i + 1;
        }
        Ok(Trick { cards, lead, size: 0 })
    }

    /// How many cards have been played.
    fn size(&self) -> (r: usize)
        requires
            self.wf(),
        ensures
            r == self@.plays.len(),
    {
        self.size
    }

    /// Places `card` at seat `position`, which must be the seat due to play.
    pub fn add(&mut self, card: &Card, position: usize) -> (r: Result<(), TrickError>)
        requires
            old(self).wf(),
        ensures
            final(self).wf(),
            r == old(self)@.add_outcome(position as int),
            r is Ok ==> final(self)@ == old(self)@.played(*card),
            r is Err ==> final(self)@ == old(self)@,
    {
        if position >= SEATS {
            return Err(TrickError::SeatOutOfRange);
        }
        let ghost lead = self.lead as int;
        if self.cards[position].is_some() {
            proof {
                lemma_seat_turn(lead, position as int);
                let k = (position + SEATS - lead) % (SEATS as int);
                assert(self@.plays.len() == self.size);
                assert(seat(lead, k) == position);
                assert(0 <= k < self@.plays.len());
            }
            return Err(TrickError::SeatAlreadyPlayed);
        }
        proof {
            assert forall|k: int| 0 <= k < self@.plays.len() implies #[trigger] seat(lead, k)
                != position by {
                lemma_seat_once(lead, k, k);
            }
        }
        if (self.lead + self.size()) % SEATS != position {
            return Err(TrickError::OutOfTurn);
        }
        proof {
            if self.size == SEATS {
                assert(self.cards@[seat(lead, 0)] is Some);
            }
        }
        let ghost before = self@;
        let ghost old_cards = self.cards@;
        self.cards.set(position, Some(*card));
        self.size = self.size + 1;
        proof {
            assert forall|k: int| 0 <= k < SEATS implies (#[trigger] self.cards@[seat(lead, k)] is Some
                <==> k < self.size) by {
                lemma_seat_once(lead, k, self.size - 1);
            }
            assert forall|k: int| 0 <= k < self.size - 1 implies #[trigger] self.cards@[seat(lead, k)]
                == old_cards[seat(lead, k)] by {
                lemma_seat_once(lead, k, self.size - 1);
            }
            assert(self@.plays =~= before.plays.push(*card));
        }
        Ok(())
    }

    /// The card that opened the trick, or `None` before anyone has played.
    pub fn leader(&self) -> (r: Option<Card>)
        requires
            self.wf(),
        ensures
            r == lead_card(self@.plays),
    {
        proof {
            assert(seat(self.lead as int, 0) == self.lead);
        }
        self.cards[self.lead]
    }

    /// The card winning the trick so far, or `None` before anyone has played.
    pub fn winner(&self) -> (r: Option<Card>)
        requires
            self.wf(),
        ensures
            r == trick_winner(self@.plays),
    {
        let lead = self.leader();
        match lead {
            None => None,
            Some(first) => {
                if let Some(rank) = self.suit_winner(&Suit::Spades) {
                    return Some(Card::new(&rank, &Suit::Spades));
                }
                let suit = first.get_suit();
                match self.suit_winner(&suit) {
                    Some(rank) => Some(Card::new(&rank, &suit)),
                    None => None,
                }
            },
        }
    }

    /// The highest rank played in `suit`, or `None` if nobody played that suit.
    fn suit_winner(&self, suit: &Suit) -> (r: Option<Rank>)
        requires
            self.wf(),
        ensures
            r == top_rank(self@.plays, *suit),
    {
        let ghost plays = self@.plays;
        let mut best: Option<Rank> = None;
        let mut k: usize = 0;
        while k < self.size
            invariant
                self.wf(),
                plays == self@.plays,
                k <= self.size,
                best == top_rank(plays.take(k as int), *suit),
            decreases self.size - k,
        {
            proof {
                lemma_seat_once(self.lead as int, k as int, k as int);
            }
            let c = self.cards[(self.lead + k) % SEATS].unwrap();
            assert(c == plays[k as int]);
            if c.suit == *suit {
                let higher = match best {
                    Some(r) => c.rank.value() > r.value(),
                    None => true,
                };
                if higher {
                    best = Some(c.rank);
                }
            }
            proof {
                assert(plays.take(k + 1).drop_last() =~= plays.take(k as int));
            }
            k = k + 1;
        }
        assert(plays.take(k as int) =~= plays);
        best
    }
}

} // verus!
