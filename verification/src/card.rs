//! Cards: the thirteen values in their order, the four suits, and the
//! characters that denote them.

use vstd::prelude::*;

verus! {

/// The number of cards in a hand.
pub const HAND_SIZE: usize = 5;

/// The value of a card. The variants are listed from weakest to strongest.
#[derive(Debug, Clone, Copy, PartialEq, Eq, Structural, PartialOrd, Ord, Hash)]
pub enum CardValue {
    Two,
    Three,
    Four,
    Five,
    Six,
    Seven,
    Eight,
    Nine,
    Ten,
    Jack,
    Queen,
    King,
    Ace,
}

/// The suit of a card. Suits are only ever compared for equality.
#[derive(Debug, Clone, Copy, PartialEq, Eq, Structural, PartialOrd, Ord, Hash)]
pub enum Suits {
    Hearts,
    Diamonds,
    Clubs,
    Spades,
}

/// A playing card.
#[derive(Debug, Clone, Copy, PartialEq, Eq, Structural, PartialOrd, Ord, Hash)]
pub struct Card {
    pub value: CardValue,
    pub suit: Suits,
}

impl CardValue {
    /// The position of a value in the order of values: 0 for `Two`, 12 for `Ace`.
    pub open spec fn ordinal_spec(self) -> int {
        match self {
            CardValue::Two => 0,
            CardValue::Three => 1,
            CardValue::Four => 2,
            CardValue::Five => 3,
            CardValue::Six => 4,
            CardValue::Seven => 5,
            CardValue::Eight => 6,
            CardValue::Nine => 7,
            CardValue::Ten => 8,
            CardValue::Jack => 9,
            CardValue::Queen => 10,
            CardValue::King => 11,
            CardValue::Ace => 12,
        }
    }

    /// The position of a value in the order of values: 0 for `Two`, 12 for `Ace`.
    pub fn ordinal(self) -> (position: u8)
        ensures
            position == self.ordinal_spec(),
    {
        match self {
            CardValue::Two => 0,
            CardValue::Three => 1,
            CardValue::Four => 2,
            CardValue::Five => 3,
            CardValue::Six => 4,
            CardValue::Seven => 5,
            CardValue::Eight => 6,
            CardValue::Nine => 7,
            CardValue::Ten => 8,
            CardValue::Jack => 9,
            CardValue::Queen => 10,
            CardValue::King => 11,
            CardValue::Ace => 12,
        }
    }

    /// Different values have different positions, and every position lies
    /// between 0 and 12.
    pub proof fn lemma_ordinal_injective(self, other: CardValue)
        ensures
            0 <= self.ordinal_spec() <= 12,
            self.ordinal_spec() == other.ordinal_spec() <==> self == other,
    {
    }
}

/// The value that a rank character denotes, if it denotes one.
pub open spec fn value_of_char(c: char) -> Option<CardValue> {
    if c == '2' {
        Some(CardValue::Two)
    } else if c == '3' {
        Some(CardValue::Three)
    } else if c == '4' {
        Some(CardValue::Four)
    } else if c == '5' {
        Some(CardValue::Five)
    } else if c == '6' {
        Some(CardValue::Six)
    } else if c == '7' {
        Some(CardValue::Seven)
    } else if c == '8' {
        Some(CardValue::Eight)
    } else if c == '9' {
        Some(CardValue::Nine)
    } else if c == 'T' {
        Some(CardValue::Ten)
    } else if c == 'J' {
        Some(CardValue::Jack)
    } else if c == 'Q' {
        Some(CardValue::Queen)
    } else if c == 'K' {
        Some(CardValue::King)
    } else if c == 'A' {
        Some(CardValue::Ace)
    } else {
        None
    }
}

/// The suit that a suit character denotes, if it denotes one.
pub open spec fn suit_of_char(c: char) -> Option<Suits> {
    if c == 'H' {
        Some(Suits::Hearts)
    } else if c == 'D' {
        Some(Suits::Diamonds)
    } else if c == 'C' {
        Some(Suits::Clubs)
    } else if c == 'S' {
        Some(Suits::Spades)
    } else {
        None
    }
}

/// The card that a rank character and a suit character denote together. There
/// is one exactly when both characters are recognized.
pub open spec fn card_of_chars(value: char, suit: char) -> Option<Card> {
    match (value_of_char(value), suit_of_char(suit)) {
        (Some(v), Some(s)) => Some(Card { value: v, suit: s }),
        _ => None,
    }
}

/// Reads a card from its rank character (`2` to `9`, `T`, `J`, `Q`, `K`, `A`)
/// and its suit character (`H`, `D`, `C`, `S`). Any other character, lower
/// case included, gives `None`.
pub fn map_card_value(value: char, suit: char) -> (card: Option<Card>)
    ensures
        card == card_of_chars(value, suit),
{
    let card_value = match value {
        '2' => CardValue::Two,
        '3' => CardValue::Three,
        '4' => CardValue::Four,
        '5' => CardValue::Five,
        '6' => CardValue::Six,
        '7' => CardValue::Seven,
        '8' => CardValue::Eight,
        '9' => CardValue::Nine,
        'T' => CardValue::Ten,
        'J' => CardValue::Jack,
        'Q' => CardValue::Queen,
        'K' => CardValue::King,
        'A' => CardValue::Ace,
        _ => return None,
    };
    let suit_enum = match suit {
        'H' => Suits::Hearts,
        'D' => Suits::Diamonds,
        'C' => Suits::Clubs,
        'S' => Suits::Spades,
        _ => return None,
    };
    Some(Card { value: card_value, suit: suit_enum })
}

} // verus!
