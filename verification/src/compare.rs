//! Which of two evaluated hands wins: the stronger category, and between
//! hands of one category the values at the positions that decide it.

use vstd::prelude::*;

use crate::card::{Card, HAND_SIZE};
use crate::rank::Rank;

verus! {

/// The outcome of comparing a first hand with a second.
#[derive(Debug, Clone, Copy, PartialEq, Eq, Structural, Hash)]
pub enum ComparisonResult {
    Hand1Wins,
    Hand2Wins,
    Tie,
}

impl ComparisonResult {
    /// The same outcome seen from the other hand.
    pub open spec fn reversed(self) -> ComparisonResult {
        match self {
            ComparisonResult::Hand1Wins => ComparisonResult::Hand2Wins,
            ComparisonResult::Hand2Wins => ComparisonResult::Hand1Wins,
            ComparisonResult::Tie => ComparisonResult::Tie,
        }
    }
}

/// The positions in a canonically ordered hand whose values decide between two
/// hands of the category `rank`, in the order in which they are consulted.
pub open spec fn decisive_positions(rank: Rank) -> Seq<int> {
    match rank {
        Rank::StraightFlush | Rank::Straight => seq![0int],
        Rank::FourOfAKind | Rank::ThreeOfAKind | Rank::OnePair => seq![0int],
        Rank::FullHouse => seq![0int, 3int],
        Rank::TwoPairs => seq![0int, 2int, 4int],
        Rank::Flush | Rank::HighCard => seq![0int, 1int, 2int, 3int, 4int],
    }
}

/// The two hands hold the same value at each of the first `k` positions of
/// `positions`.
pub open spec fn agree_before(
    cards_1: Seq<Card>,
    cards_2: Seq<Card>,
    positions: Seq<int>,
    k: int,
) -> bool {
    forall|m: int|
        0 <= m < k ==> cards_1[#[trigger] positions[m]].value == cards_2[positions[m]].value
}

/// Going through `positions` in order, the first position at which the two
/// hands differ in value exists, and there `cards_1` holds the higher value.
pub open spec fn higher_at_first_difference(
    cards_1: Seq<Card>,
    cards_2: Seq<Card>,
    positions: Seq<int>,
) -> bool {
    exists|k: int|
        0 <= k < positions.len() && agree_before(cards_1, cards_2, positions, k)
            && cards_1[#[trigger] positions[k]].value.ordinal_spec()
            > cards_2[positions[k]].value.ordinal_spec()
}

/// The outcome between two hands when only the values at `positions` count:
/// the first difference decides, and without one the hands tie.
pub open spec fn first_difference(
    cards_1: Seq<Card>,
    cards_2: Seq<Card>,
    positions: Seq<int>,
) -> ComparisonResult {
    if higher_at_first_difference(cards_1, cards_2, positions) {
        ComparisonResult::Hand1Wins
    } else if higher_at_first_difference(cards_2, cards_1, positions) {
        ComparisonResult::Hand2Wins
    } else {
        ComparisonResult::Tie
    }
}

/// The outcome between two canonically ordered hands that share the category
/// `rank`.
pub open spec fn break_tie_spec(rank: Rank, cards_1: Seq<Card>, cards_2: Seq<Card>) -> ComparisonResult {
    first_difference(cards_1, cards_2, decisive_positions(rank))
}

/// The outcome between two evaluated hands: the stronger category wins, and
/// hands of one category are decided by `break_tie_spec`.
pub open spec fn compare_hands_spec(
    rank_1: Rank,
    cards_1: Seq<Card>,
    rank_2: Rank,
    cards_2: Seq<Card>,
) -> ComparisonResult {
    if rank_1.strength_spec() > rank_2.strength_spec() {
        ComparisonResult::Hand1Wins
    } else if rank_1.strength_spec() < rank_2.strength_spec() {
        ComparisonResult::Hand2Wins
    } else {
        break_tie_spec(rank_1, cards_1, cards_2)
    }
}

/// A hand compared with itself, or with any hand that holds the same values at
/// the same positions, ties: no comparison ever finds a difference.
pub proof fn lemma_compare_with_itself_ties(rank: Rank, cards: Seq<Card>)
    ensures
        break_tie_spec(rank, cards, cards) == ComparisonResult::Tie,
        compare_hands_spec(rank, cards, rank, cards) == ComparisonResult::Tie,
{
}

/// The order of categories is respected: a hand of a stronger category beats a
/// hand of a weaker one, whatever cards the two hold.
pub proof fn lemma_stronger_category_wins(
    rank_1: Rank,
    cards_1: Seq<Card>,
    rank_2: Rank,
    cards_2: Seq<Card>,
)
    requires
        rank_1.strength_spec() > rank_2.strength_spec(),
    ensures
        compare_hands_spec(rank_1, cards_1, rank_2, cards_2) == ComparisonResult::Hand1Wins,
        compare_hands_spec(rank_2, cards_2, rank_1, cards_1) == ComparisonResult::Hand2Wins,
{
}

/// A straight flush beats every hand of another category, whatever cards the
/// two hold.
pub proof fn lemma_straight_flush_beats_lower(
    cards_1: Seq<Card>,
    rank_2: Rank,
    cards_2: Seq<Card>,
)
    requires
        rank_2 != Rank::StraightFlush,
    ensures
        compare_hands_spec(Rank::StraightFlush, cards_1, rank_2, cards_2)
            == ComparisonResult::Hand1Wins,
        compare_hands_spec(rank_2, cards_2, Rank::StraightFlush, cards_1)
            == ComparisonResult::Hand2Wins,
{
}

/// Two hands that hold the same values at the first `k` of the positions, and
/// of which neither is higher at a first difference, hold the same values at
/// all of them.
proof fn lemma_no_difference_agree(
    cards_1: Seq<Card>,
    cards_2: Seq<Card>,
    positions: Seq<int>,
    k: int,
)
    requires
        0 <= k <= positions.len(),
        !higher_at_first_difference(cards_1, cards_2, positions),
        !higher_at_first_difference(cards_2, cards_1, positions),
    ensures
        agree_before(cards_1, cards_2, positions, k),
    decreases k,
{
    if k > 0 {
        lemma_no_difference_agree(cards_1, cards_2, positions, k - 1);
        let p = positions[k - 1];
        cards_1[p].value.lemma_ordinal_injective(cards_2[p].value);
    }
}

/// Two hands of one category tie exactly when they hold the same value at
/// every position that counts for that category.
pub proof fn lemma_tie_iff_decisive_values_equal(rank: Rank, cards_1: Seq<Card>, cards_2: Seq<Card>)
    ensures
        break_tie_spec(rank, cards_1, cards_2) == ComparisonResult::Tie <==> agree_before(
            cards_1,
            cards_2,
            decisive_positions(rank),
            decisive_positions(rank).len() as int,
        ),
{
    let positions = decisive_positions(rank);
    if break_tie_spec(rank, cards_1, cards_2) == ComparisonResult::Tie {
        lemma_no_difference_agree(cards_1, cards_2, positions, positions.len() as int);
    }
}

/// Exchanging the two hands exchanges the outcome.
pub proof fn lemma_compare_antisymmetric(
    rank_1: Rank,
    cards_1: Seq<Card>,
    rank_2: Rank,
    cards_2: Seq<Card>,
)
    ensures
        compare_hands_spec(rank_2, cards_2, rank_1, cards_1) == compare_hands_spec(
            rank_1,
            cards_1,
            rank_2,
            cards_2,
        ).reversed(),
{
    rank_1.lemma_strength_injective(rank_2);
}

/// The positions that decide between hands of the category `rank`.
fn positions_for(rank: Rank) -> (positions: Vec<usize>)
    ensures
        positions@.len() == decisive_positions(rank).len(),
        forall|k: int|
            0 <= k < positions@.len() ==> #[trigger] positions@[k] == decisive_positions(rank)[k],
        forall|k: int| 0 <= k < positions@.len() ==> #[trigger] positions@[k] < HAND_SIZE,
{
    match rank {
        Rank::StraightFlush | Rank::Straight => vec![0],
        Rank::FourOfAKind | Rank::ThreeOfAKind | Rank::OnePair => vec![0],
        Rank::FullHouse => vec![0, 3],
        Rank::TwoPairs => vec![0, 2, 4],
        Rank::Flush | Rank::HighCard => vec![0, 1, 2, 3, 4],
    }
}

/// Decides between two canonically ordered hands of the same category by the
/// values at the positions that count for it: position 0 for a straight, a
/// straight flush, four of a kind, three of a kind and one pair; positions 0
/// and 3 for a full house; positions 0, 2 and 4 for two pairs; all five
/// positions in order for a flush and a high card. The first difference
/// decides; the hands tie when there is none.
pub fn break_tie(rank: &Rank, cards_1: &[Card], cards_2: &[Card]) -> (outcome: ComparisonResult)
    requires
        cards_1@.len() == HAND_SIZE,
        cards_2@.len() == HAND_SIZE,
    ensures
        outcome == break_tie_spec(*rank, cards_1@, cards_2@),
{
    let positions = positions_for(*rank);
    let ghost wanted = decisive_positions(*rank);
    let mut k: usize = 0;
    while k < positions.len()
        invariant
            k <= positions@.len(),
            cards_1@.len() == HAND_SIZE,
            cards_2@.len() == HAND_SIZE,
            wanted == decisive_positions(*rank),
            positions@.len() == wanted.len(),
            forall|m: int| 0 <= m < positions@.len() ==> #[trigger] positions@[m] == wanted[m],
            forall|m: int| 0 <= m < positions@.len() ==> #[trigger] positions@[m] < HAND_SIZE,
            agree_before(cards_1@, cards_2@, wanted, k as int),
        decreases positions@.len() - k,
    {
        let position: usize = positions[k];
        assert(position == wanted[k as int]);
        let value_1: u8 = cards_1[position].value.ordinal();
        let value_2: u8 = cards_2[position].value.ordinal();
        if value_1 > value_2 {
            return ComparisonResult::Hand1Wins;
        }
        if value_1 < value_2 {
            assert(!higher_at_first_difference(cards_1@, cards_2@, wanted));
            assert(higher_at_first_difference(cards_2@, cards_1@, wanted));
            return ComparisonResult::Hand2Wins;
        }
        proof {
            cards_1@[position as int].value.lemma_ordinal_injective(cards_2@[position as int].value);
        }
        k = k + 1;
    }
    ComparisonResult::Tie
}

/// Compares two evaluated hands, each given as its category and its cards in
/// canonical order. The stronger category wins outright; between hands of one
/// category `break_tie` decides.
pub fn compare_hands(rank_1: &Rank, cards_1: &[Card], rank_2: &Rank, cards_2: &[Card]) -> (outcome:
    ComparisonResult)
    requires
        cards_1@.len() == HAND_SIZE,
        cards_2@.len() == HAND_SIZE,
    ensures
        outcome == compare_hands_spec(*rank_1, cards_1@, *rank_2, cards_2@),
{
    let strength_1: u8 = rank_1.strength();
    let strength_2: u8 = rank_2.strength();
    if strength_1 > strength_2 {
        ComparisonResult::Hand1Wins
    } else if strength_1 < strength_2 {
        ComparisonResult::Hand2Wins
    } else {
        proof {
            rank_1.lemma_strength_injective(*rank_2);
        }
        break_tie(rank_1, cards_1, cards_2)
    }
}

} // verus!
