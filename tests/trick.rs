use spades_engine::{Card, Rank, Suit, Trick, TrickError};

#[test]
fn empty_trick_has_none_winner() {
    let trick = Trick::new(0).unwrap();
    assert_eq!(trick.winner(), None);
}

#[test]
fn single_card_trick_has_that_card_as_winner() {
    for i in 0..=3 {
        let card = Card::new(&Rank::Two, &Suit::Clubs);
        let mut trick = Trick::new(i).unwrap();
        trick.add(&card, i).unwrap();
        assert_eq!(trick.winner().unwrap(), card);
    }
}

#[test]
fn spades_trick_has_spades_winner() {
    for i in 0..=3 {
        let card = Card::new(&Rank::Two, &Suit::Spades);
        let mut trick = Trick::new(i).unwrap();
        trick.add(&card, i).unwrap();
        let card = Card::new(&Rank::Three, &Suit::Spades);
        trick.add(&card, (i + 1) % 4).unwrap();
        assert_eq!(trick.winner().unwrap(), card);
    }
}

#[test]
fn trumped_trick_has_spades_winner() {
    for i in 0..=3 {
        let card = Card::new(&Rank::Two, &Suit::Clubs);
        let mut trick = Trick::new(i).unwrap();
        trick.add(&card, i).unwrap();
        let card = Card::new(&Rank::Two, &Suit::Spades);
        trick.add(&card, (i + 1) % 4).unwrap();
        assert_eq!(trick.winner().unwrap(), card);
    }
}

#[test]
fn cannot_add_out_of_turn() {
    let card = Card::new(&Rank::Two, &Suit::Clubs);
    let mut trick = Trick::new(1).unwrap();
    assert!(trick.add(&card, 2).is_err());
    assert!(trick.add(&card, 1).is_ok());
    assert!(trick.add(&card, 3).is_err());
    assert!(trick.add(&card, 2).is_ok());
    assert!(trick.add(&card, 0).is_err());
}

#[test]
fn new_accepts_every_seat() {
    for s in 0..4 {
        let trick = Trick::new(s).unwrap();
        assert_eq!(trick.leader(), None);
        assert_eq!(trick.winner(), None);
    }
}

#[test]
fn new_rejects_other_seats() {
    assert_eq!(Trick::new(4).err(), Some(TrickError::InvalidSeat));
    assert_eq!(Trick::new(17).err(), Some(TrickError::InvalidSeat));
    assert_eq!(Trick::new(usize::MAX).err(), Some(TrickError::InvalidSeat));
}

#[test]
fn out_of_turn_errors_are_named() {
    let card = Card::new(&Rank::Two, &Suit::Clubs);
    let mut trick = Trick::new(1).unwrap();
    assert_eq!(trick.add(&card, 2), Err(TrickError::OutOfTurn));
    assert_eq!(trick.add(&card, 1), Ok(()));
    assert_eq!(trick.add(&card, 3), Err(TrickError::OutOfTurn));
    assert_eq!(trick.add(&card, 2), Ok(()));
    assert_eq!(trick.add(&card, 0), Err(TrickError::OutOfTurn));
    assert_eq!(trick.add(&card, 3), Ok(()));
    assert_eq!(trick.add(&card, 0), Ok(()));
}

#[test]
fn seats_follow_the_lead_round_the_table() {
    for lead in 0..4 {
        let mut trick = Trick::new(lead).unwrap();
        for k in 0..4 {
            let card = Card::new(&Rank::Five, &Suit::Hearts);
            for other in 0..4 {
                if other != (lead + k) % 4 {
                    assert!(trick.add(&card, other).is_err());
                }
            }
            assert_eq!(trick.add(&card, (lead + k) % 4), Ok(()));
        }
    }
}

#[test]
fn full_trick_refuses_every_seat() {
    let mut trick = Trick::new(2).unwrap();
    for k in 0..4 {
        trick
            .add(&Card::new(&Rank::Nine, &Suit::Diamonds), (2 + k) % 4)
            .unwrap();
    }
    for seat in 0..4 {
        let card = Card::new(&Rank::Ace, &Suit::Spades);
        assert_eq!(trick.add(&card, seat), Err(TrickError::SeatAlreadyPlayed));
    }
}

#[test]
fn same_seat_twice_is_already_played() {
    let mut trick = Trick::new(3).unwrap();
    assert_eq!(trick.add(&Card::new(&Rank::Four, &Suit::Clubs), 3), Ok(()));
    assert_eq!(
        trick.add(&Card::new(&Rank::Ace, &Suit::Spades), 3),
        Err(TrickError::SeatAlreadyPlayed)
    );
    assert_eq!(
        trick.add(&Card::new(&Rank::Four, &Suit::Clubs), 3),
        Err(TrickError::SeatAlreadyPlayed)
    );
}

#[test]
fn seat_out_of_range() {
    let mut trick = Trick::new(0).unwrap();
    let card = Card::new(&Rank::Four, &Suit::Clubs);
    assert_eq!(trick.add(&card, 4), Err(TrickError::SeatOutOfRange));
    assert_eq!(trick.add(&card, usize::MAX), Err(TrickError::SeatOutOfRange));
    assert_eq!(trick.leader(), None);
}

#[test]
fn leader_is_first_card() {
    let mut trick = Trick::new(2).unwrap();
    let first = Card::new(&Rank::Seven, &Suit::Hearts);
    trick.add(&first, 2).unwrap();
    trick.add(&Card::new(&Rank::Ace, &Suit::Spades), 3).unwrap();
    assert_eq!(trick.leader(), Some(first));
}

#[test]
fn highest_trump_beats_higher_off_suit() {
    let mut trick = Trick::new(0).unwrap();
    trick.add(&Card::new(&Rank::King, &Suit::Clubs), 0).unwrap();
    trick.add(&Card::new(&Rank::Three, &Suit::Spades), 1).unwrap();
    trick.add(&Card::new(&Rank::Ace, &Suit::Clubs), 2).unwrap();
    trick.add(&Card::new(&Rank::Seven, &Suit::Spades), 3).unwrap();
    assert_eq!(trick.winner(), Some(Card::new(&Rank::Seven, &Suit::Spades)));
}

#[test]
fn without_trump_highest_of_led_suit_wins() {
    let mut trick = Trick::new(1).unwrap();
    trick.add(&Card::new(&Rank::Five, &Suit::Hearts), 1).unwrap();
    trick.add(&Card::new(&Rank::King, &Suit::Clubs), 2).unwrap();
    trick.add(&Card::new(&Rank::Nine, &Suit::Hearts), 3).unwrap();
    assert_eq!(trick.winner(), Some(Card::new(&Rank::Nine, &Suit::Hearts)));
    trick.add(&Card::new(&Rank::Ace, &Suit::Diamonds), 0).unwrap();
    assert_eq!(trick.winner(), Some(Card::new(&Rank::Nine, &Suit::Hearts)));
}

#[test]
fn lead_card_stays_winner_when_unbeaten() {
    let mut trick = Trick::new(0).unwrap();
    trick.add(&Card::new(&Rank::Queen, &Suit::Diamonds), 0).unwrap();
    trick.add(&Card::new(&Rank::Jack, &Suit::Diamonds), 1).unwrap();
    trick.add(&Card::new(&Rank::Ace, &Suit::Hearts), 2).unwrap();
    assert_eq!(trick.winner(), Some(Card::new(&Rank::Queen, &Suit::Diamonds)));
}
