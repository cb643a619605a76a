//! Five-card poker hands: parsing card tokens, classifying a hand into its
//! category, putting its cards into canonical order, and deciding which of two
//! evaluated hands wins.
//!
//! Every function is pure. Each contract is stated over the sequence of cards
//! that a slice or vector holds.

pub mod canonical;
pub mod card;
pub mod compare;
pub mod evaluation;
pub mod histogram;
pub mod parse;
pub mod rank;
pub mod shape;

pub use canonical::canonical_order;
pub use card::{map_card_value, Card, CardValue, Suits, HAND_SIZE};
pub use evaluation::{evaluate, process_hand};
pub use histogram::get_card_value_histogram;
pub use compare::{break_tie, compare_hands, ComparisonResult};
pub use parse::{parse_card, parse_hand, split_tokens, ParseError};
pub use rank::{check_flush, check_straight, rank_hand, Rank};
