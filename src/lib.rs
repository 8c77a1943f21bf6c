//! Rules engine for a four-seat trick-taking game with spades as trumps:
//! the cards of one trick, who is winning it, and which cards a hand may play.

pub mod card;
pub mod hand;
pub mod trick;

pub use card::{Card, Rank, Suit};
pub use hand::{Hand, HandError};
pub use trick::{Trick, TrickError};
