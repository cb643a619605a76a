//! Evaluating a hand: from its text to its category and its cards in
//! canonical order.

use vstd::prelude::*;

use crate::canonical::{
    canonical_order, hand_counts, is_canonical_order, lemma_canonical_order_unique,
    lemma_histogram_lists_counts,
};
use crate::card::{Card, HAND_SIZE};
use crate::histogram::get_card_value_histogram;
use crate::parse::{
    hand_of_tokens, parse_hand, split_tokens, token_texts, tokens_of, ParseError, ParseErrorView,
};
use crate::rank::{lemma_classification_by_groups, rank_hand, rank_of, Rank};

verus! {

/// `rank` and `cards` are the evaluation of `hand`: its category, and its
/// cards in canonical order under the counts of the hand itself.
pub open spec fn is_evaluation(hand: Seq<Card>, rank: Rank, cards: Seq<Card>) -> bool {
    &&& rank == rank_of(hand)
    &&& is_canonical_order(hand_counts(hand), cards, hand)
}

/// What an evaluation gave, with the cards as a sequence and an error as what
/// it says.
pub open spec fn outcome_view(result: Result<(Rank, Vec<Card>), ParseError>) -> Result<
    (Rank, Seq<Card>),
    ParseErrorView,
> {
    match result {
        Ok((rank, cards)) => Ok((rank, cards@)),
        Err(error) => Err(error@),
    }
}

/// `outcome` is what evaluating the hand with the tokens `tokens` gives: the
/// evaluation of the hand that the tokens denote, or the error with which
/// they are refused.
pub open spec fn is_outcome_for(
    tokens: Seq<Seq<char>>,
    outcome: Result<(Rank, Seq<Card>), ParseErrorView>,
) -> bool {
    match outcome {
        Ok((rank, cards)) => {
            &&& hand_of_tokens(tokens) is Ok
            &&& is_evaluation(hand_of_tokens(tokens)->Ok_0, rank, cards)
        },
        Err(error) => {
            &&& hand_of_tokens(tokens) is Err
            &&& hand_of_tokens(tokens)->Err_0 == error
        },
    }
}

/// The cards of an evaluated hand are the cards of the hand, each as often as
/// the hand holds it: canonical order only rearranges.
pub proof fn lemma_evaluation_keeps_cards(hand: Seq<Card>, rank: Rank, cards: Seq<Card>)
    requires
        is_evaluation(hand, rank, cards),
    ensures
        cards.to_multiset() == hand.to_multiset(),
        cards.len() == hand.len(),
{
    vstd::seq_lib::to_multiset_len(cards);
    vstd::seq_lib::to_multiset_len(hand);
}

/// A hand has one evaluation and no other.
pub proof fn lemma_evaluation_unique(
    hand: Seq<Card>,
    rank_1: Rank,
    cards_1: Seq<Card>,
    rank_2: Rank,
    cards_2: Seq<Card>,
)
    requires
        is_evaluation(hand, rank_1, cards_1),
        is_evaluation(hand, rank_2, cards_2),
    ensures
        rank_1 == rank_2,
        cards_1 == cards_2,
{
    lemma_canonical_order_unique(hand_counts(hand), cards_1, cards_2, hand);
}

/// Evaluating the same tokens again gives the same outcome: whatever two
/// evaluations of one sequence of tokens return, category and cards or an
/// error, is equal.
pub proof fn lemma_outcome_unique(
    tokens: Seq<Seq<char>>,
    first: Result<(Rank, Seq<Card>), ParseErrorView>,
    second: Result<(Rank, Seq<Card>), ParseErrorView>,
)
    requires
        is_outcome_for(tokens, first),
        is_outcome_for(tokens, second),
    ensures
        first == second,
{
    if first is Ok {
        let hand = hand_of_tokens(tokens)->Ok_0;
        lemma_evaluation_unique(hand, first->Ok_0.0, first->Ok_0.1, second->Ok_0.0, second->Ok_0.1);
    }
}

/// Evaluates the hand that five tokens denote: reads the cards, builds their
/// histogram, classifies the hand and puts the cards into canonical order. A
/// hand that cannot be read gives the error of `parse_hand`, and nothing else
/// is done with it.
pub fn evaluate(tokens: &[&str]) -> (result: Result<(Rank, Vec<Card>), ParseError>)
    ensures
        is_outcome_for(token_texts(tokens@), outcome_view(result)),
        result matches Ok(evaluation) ==> evaluation.1@.len() == HAND_SIZE,
{
    let hand = match parse_hand(tokens) {
        Ok(hand) => hand,
        Err(error) => {
            return Err(error);
        },
    };
    let histogram = get_card_value_histogram(hand.as_slice());
    let rank = rank_hand(histogram.as_slice(), hand.as_slice());
    let cards = canonical_order(hand.as_slice(), histogram.as_slice());
    proof {
        lemma_classification_by_groups(histogram@, hand@);
        lemma_histogram_lists_counts(histogram@, hand@);
        lemma_evaluation_keeps_cards(hand@, rank, cards@);
    }
    Ok((rank, cards))
}

/// Evaluates a hand written as five tokens separated by single spaces, such
/// as `8C TS KC 9H 4S`: returns its category and its cards in canonical
/// order. A text with more or fewer than five tokens is refused with
/// `InvalidHandSize`, and one with a token that is no card with
/// `InvalidCardToken`.
pub fn process_hand(hand_str: &str) -> (result: Result<(Rank, Vec<Card>), ParseError>)
    ensures
        is_outcome_for(tokens_of(hand_str@), outcome_view(result)),
        result matches Ok(evaluation) ==> evaluation.1@.len() == HAND_SIZE,
{
    let tokens = split_tokens(hand_str);
    evaluate(tokens.as_slice())
}

} // verus!
