//! Where the cards that decide a comparison stand in an evaluated hand: for
//! every category, canonical order puts them at the positions that
//! `break_tie` consults.

use vstd::prelude::*;

use crate::canonical::{card_precedes, hand_counts, is_canonical_order};
use crate::card::{Card, CardValue, HAND_SIZE};
use crate::evaluation::is_evaluation;
use crate::histogram::{count_value, has_value, lemma_count_positive_iff_occurs, lemma_count_push};
use crate::rank::{
    has_group, has_two_groups, lemma_exactly_one_category, lemma_straight_iff_distinct_and_close,
    values_distinct, values_within, Rank,
};

verus! {

/// 1 where the card has the value, 0 where it has not.
pub open spec fn one_if(card: Card, value: CardValue) -> nat {
    if card.value == value {
        1
    } else {
        0
    }
}

/// The position of the value of the card at `i`.
pub open spec fn ordinal_at(cards: Seq<Card>, i: int) -> int {
    cards[i].value.ordinal_spec()
}

/// In a hand of five cards, the count of a value is the number of the five
/// cards that have it.
pub proof fn lemma_count_five(cards: Seq<Card>, value: CardValue)
    requires
        cards.len() == HAND_SIZE,
    ensures
        count_value(cards, value) == one_if(cards[0], value) + one_if(cards[1], value) + one_if(
            cards[2],
            value,
        ) + one_if(cards[3], value) + one_if(cards[4], value),
{
    let none = cards.take(0);
    assert(none =~= Seq::<Card>::empty());
    none.lemma_filter_len(has_value(value));
    assert(cards.take(1) =~= cards.take(0).push(cards[0]));
    assert(cards.take(2) =~= cards.take(1).push(cards[1]));
    assert(cards.take(3) =~= cards.take(2).push(cards[2]));
    assert(cards.take(4) =~= cards.take(3).push(cards[3]));
    assert(cards =~= cards.take(4).push(cards[4]));
    lemma_count_push(cards.take(0), cards[0], value);
    lemma_count_push(cards.take(1), cards[1], value);
    lemma_count_push(cards.take(2), cards[2], value);
    lemma_count_push(cards.take(3), cards[3], value);
    lemma_count_push(cards.take(4), cards[4], value);
}

/// The first card of a hand in canonical order has a value of the largest
/// group: no value occurs in the hand more often than the value of that card.
pub proof fn lemma_first_card_in_largest_group(hand: Seq<Card>, cards: Seq<Card>, value: CardValue)
    requires
        is_canonical_order(hand_counts(hand), cards, hand),
        cards.len() > 0,
    ensures
        count_value(hand, cards[0].value) >= count_value(hand, value),
{
    if count_value(hand, value) >= 1 {
        assert(cards.filter(has_value(value)) == hand.filter(has_value(value)));
        lemma_count_positive_iff_occurs(cards, value);
        let k = choose|k: int| 0 <= k < cards.len() && (#[trigger] cards[k]).value == value;
        if k > 0 {
            assert(!card_precedes(hand_counts(hand), cards[k], cards[0]));
        }
    }
}

/// The card at `i` and the card at `j` have the same value.
pub open spec fn same_value(cards: Seq<Card>, i: int, j: int) -> bool {
    cards[i].value == cards[j].value
}

/// Where an evaluated hand of the category `rank` holds its groups of equal
/// values and its single cards: the larger group first, groups before single
/// cards, and among groups of one size and among single cards the higher value
/// first. For a flush nothing is said here: its cards are ordered like those
/// of the pattern that its values form.
pub open spec fn has_shape(rank: Rank, cards: Seq<Card>) -> bool {
    match rank {
        Rank::FourOfAKind => {
            &&& same_value(cards, 0, 1) && same_value(cards, 0, 2) && same_value(cards, 0, 3)
            &&& !same_value(cards, 0, 4)
        },
        Rank::FullHouse => {
            &&& same_value(cards, 0, 1) && same_value(cards, 0, 2)
            &&& same_value(cards, 3, 4)
            &&& !same_value(cards, 0, 3)
        },
        Rank::ThreeOfAKind => {
            &&& same_value(cards, 0, 1) && same_value(cards, 0, 2)
            &&& !same_value(cards, 0, 3) && !same_value(cards, 0, 4)
            &&& ordinal_at(cards, 3) > ordinal_at(cards, 4)
        },
        Rank::TwoPairs => {
            &&& same_value(cards, 0, 1)
            &&& same_value(cards, 2, 3)
            &&& ordinal_at(cards, 0) > ordinal_at(cards, 2)
            &&& !same_value(cards, 0, 4) && !same_value(cards, 2, 4)
        },
        Rank::OnePair => {
            &&& same_value(cards, 0, 1)
            &&& !same_value(cards, 0, 2) && !same_value(cards, 0, 3) && !same_value(cards, 0, 4)
            &&& ordinal_at(cards, 2) > ordinal_at(cards, 3) > ordinal_at(cards, 4)
        },
        Rank::Straight | Rank::StraightFlush => {
            &&& ordinal_at(cards, 1) == ordinal_at(cards, 0) - 1
            &&& ordinal_at(cards, 2) == ordinal_at(cards, 0) - 2
            &&& ordinal_at(cards, 3) == ordinal_at(cards, 0) - 3
            &&& ordinal_at(cards, 4) == ordinal_at(cards, 0) - 4
        },
        Rank::HighCard => {
            ordinal_at(cards, 0) >= ordinal_at(cards, 1) >= ordinal_at(cards, 2) >= ordinal_at(
                cards,
                3,
            ) >= ordinal_at(cards, 4)
        },
        Rank::Flush => true,
    }
}

/// How many of five positions hold the position `o`.
spec fn times(o: int, o0: int, o1: int, o2: int, o3: int, o4: int) -> int {
    (if o == o0 {
        1int
    } else {
        0int
    }) + (if o == o1 {
        1int
    } else {
        0int
    }) + (if o == o2 {
        1int
    } else {
        0int
    }) + (if o == o3 {
        1int
    } else {
        0int
    }) + (if o == o4 {
        1int
    } else {
        0int
    })
}

/// A value that occurs `a` times at the position `x` may stand before one
/// that occurs `b` times at the position `y`.
spec fn may_precede(a: int, x: int, b: int, y: int) -> bool {
    a > b || (a == b && x >= y)
}

/// Five positions of values are listed by how often each occurs among them,
/// the most frequent first, and then from the highest down.
spec fn listed_in_order(o0: int, o1: int, o2: int, o3: int, o4: int) -> bool {
    let c0 = times(o0, o0, o1, o2, o3, o4);
    let c1 = times(o1, o0, o1, o2, o3, o4);
    let c2 = times(o2, o0, o1, o2, o3, o4);
    let c3 = times(o3, o0, o1, o2, o3, o4);
    let c4 = times(o4, o0, o1, o2, o3, o4);
    &&& may_precede(c0, o0, c1, o1)
    &&& may_precede(c1, o1, c2, o2)
    &&& may_precede(c2, o2, c3, o3)
    &&& may_precede(c3, o3, c4, o4)
}

/// Some position occurs exactly `n` times among the five.
spec fn some_occurs(n: int, o0: int, o1: int, o2: int, o3: int, o4: int) -> bool {
    ||| times(o0, o0, o1, o2, o3, o4) == n
    ||| times(o1, o0, o1, o2, o3, o4) == n
    ||| times(o2, o0, o1, o2, o3, o4) == n
    ||| times(o3, o0, o1, o2, o3, o4) == n
    ||| times(o4, o0, o1, o2, o3, o4) == n
}

/// Five positions in order with one that occurs four times start with those
/// four.
proof fn lemma_shape_four(o0: int, o1: int, o2: int, o3: int, o4: int)
    requires
        listed_in_order(o0, o1, o2, o3, o4),
        some_occurs(4, o0, o1, o2, o3, o4),
    ensures
        o0 == o1 && o0 == o2 && o0 == o3 && o0 != o4,
{
}

/// Five positions in order with one that occurs three times start with those
/// three; what follows is a pair, or two single positions with the higher
/// first.
proof fn lemma_shape_three(o0: int, o1: int, o2: int, o3: int, o4: int)
    requires
        listed_in_order(o0, o1, o2, o3, o4),
        some_occurs(3, o0, o1, o2, o3, o4),
    ensures
        o0 == o1 && o0 == o2 && o0 != o3 && o0 != o4,
        some_occurs(2, o0, o1, o2, o3, o4) ==> o3 == o4,
        !some_occurs(2, o0, o1, o2, o3, o4) ==> o3 > o4,
{
}

/// Five positions in order without one that occurs three or four times, but
/// with one that occurs twice, start with that pair; what follows is a lower
/// pair and a single position, or three single positions from the highest
/// down.
proof fn lemma_shape_two(o0: int, o1: int, o2: int, o3: int, o4: int)
    requires
        listed_in_order(o0, o1, o2, o3, o4),
        some_occurs(2, o0, o1, o2, o3, o4),
        !some_occurs(3, o0, o1, o2, o3, o4),
        !some_occurs(4, o0, o1, o2, o3, o4),
    ensures
        o0 == o1 && o0 != o2 && o0 != o3 && o0 != o4,
        times(o2, o0, o1, o2, o3, o4) == 2 ==> o2 == o3 && o0 > o2 && o2 != o4,
        times(o2, o0, o1, o2, o3, o4) != 2 ==> o2 > o3 > o4,
        times(o2, o0, o1, o2, o3, o4) != 2 ==> times(o3, o0, o1, o2, o3, o4) == 1 && times(
            o4,
            o0,
            o1,
            o2,
            o3,
            o4,
        ) == 1,
{
}

/// Five positions in order of which none occurs twice, three or four times
/// go from the highest down.
proof fn lemma_shape_single(o0: int, o1: int, o2: int, o3: int, o4: int)
    requires
        listed_in_order(o0, o1, o2, o3, o4),
        !some_occurs(2, o0, o1, o2, o3, o4),
        !some_occurs(3, o0, o1, o2, o3, o4),
        !some_occurs(4, o0, o1, o2, o3, o4),
    ensures
        o0 >= o1 >= o2 >= o3 >= o4,
{
}

/// A value occurs in a hand of five cards as often as its position occurs
/// among the positions of the cards in canonical order.
proof fn lemma_count_is_times(hand: Seq<Card>, cards: Seq<Card>, value: CardValue)
    requires
        hand.len() == HAND_SIZE,
        is_canonical_order(hand_counts(hand), cards, hand),
    ensures
        cards.len() == HAND_SIZE,
        count_value(hand, value) == times(
            value.ordinal_spec(),
            ordinal_at(cards, 0),
            ordinal_at(cards, 1),
            ordinal_at(cards, 2),
            ordinal_at(cards, 3),
            ordinal_at(cards, 4),
        ),
{
    vstd::seq_lib::to_multiset_len(cards);
    vstd::seq_lib::to_multiset_len(hand);
    assert(cards.filter(has_value(value)) == hand.filter(has_value(value)));
    lemma_count_five(cards, value);
    value.lemma_ordinal_injective(cards[0].value);
    value.lemma_ordinal_injective(cards[1].value);
    value.lemma_ordinal_injective(cards[2].value);
    value.lemma_ordinal_injective(cards[3].value);
    value.lemma_ordinal_injective(cards[4].value);
}

/// The positions of the values of five cards in canonical order are listed in
/// order.
proof fn lemma_five_listed(hand: Seq<Card>, cards: Seq<Card>)
    requires
        hand.len() == HAND_SIZE,
        is_canonical_order(hand_counts(hand), cards, hand),
    ensures
        cards.len() == HAND_SIZE,
        listed_in_order(
            ordinal_at(cards, 0),
            ordinal_at(cards, 1),
            ordinal_at(cards, 2),
            ordinal_at(cards, 3),
            ordinal_at(cards, 4),
        ),
{
    lemma_count_is_times(hand, cards, cards[0].value);
    lemma_count_is_times(hand, cards, cards[1].value);
    lemma_count_is_times(hand, cards, cards[2].value);
    lemma_count_is_times(hand, cards, cards[3].value);
    lemma_count_is_times(hand, cards, cards[4].value);
    let count = hand_counts(hand);
    assert(!card_precedes(count, cards[1], cards[0]));
    assert(!card_precedes(count, cards[2], cards[1]));
    assert(!card_precedes(count, cards[3], cards[2]));
    assert(!card_precedes(count, cards[4], cards[3]));
}

/// A hand of five cards has a group of a size exactly when a position occurs
/// that often among the positions of its cards in canonical order.
proof fn lemma_groups_listed(hand: Seq<Card>, cards: Seq<Card>, size: nat)
    requires
        hand.len() == HAND_SIZE,
        is_canonical_order(hand_counts(hand), cards, hand),
        size >= 1,
    ensures
        has_group(hand, size) <==> some_occurs(
            size as int,
            ordinal_at(cards, 0),
            ordinal_at(cards, 1),
            ordinal_at(cards, 2),
            ordinal_at(cards, 3),
            ordinal_at(cards, 4),
        ),
{
    lemma_count_is_times(hand, cards, cards[0].value);
    lemma_count_is_times(hand, cards, cards[1].value);
    lemma_count_is_times(hand, cards, cards[2].value);
    lemma_count_is_times(hand, cards, cards[3].value);
    lemma_count_is_times(hand, cards, cards[4].value);
    if has_group(hand, size) {
        let value = choose|value: CardValue| #[trigger] count_value(hand, value) == size;
        lemma_count_is_times(hand, cards, value);
    }
}

/// An evaluated hand of five cards holds the cards that decide a comparison
/// where `break_tie` looks for them: four of a kind, three of a kind and a
/// pair start at position 0, the pair of a full house stands at position 3,
/// the lower of two pairs at position 2 and their kicker at position 4, and
/// a straight runs down from its highest card at position 0.
pub proof fn lemma_evaluation_shape(hand: Seq<Card>, rank: Rank, cards: Seq<Card>)
    requires
        hand.len() == HAND_SIZE,
        is_evaluation(hand, rank, cards),
    ensures
        cards.len() == HAND_SIZE,
        has_shape(rank, cards),
{
    lemma_five_listed(hand, cards);
    lemma_exactly_one_category(hand, rank);
    lemma_groups_listed(hand, cards, 2);
    lemma_groups_listed(hand, cards, 3);
    lemma_groups_listed(hand, cards, 4);
    let o0 = ordinal_at(cards, 0);
    let o1 = ordinal_at(cards, 1);
    let o2 = ordinal_at(cards, 2);
    let o3 = ordinal_at(cards, 3);
    let o4 = ordinal_at(cards, 4);
    cards[0].value.lemma_ordinal_injective(cards[1].value);
    cards[0].value.lemma_ordinal_injective(cards[2].value);
    cards[0].value.lemma_ordinal_injective(cards[3].value);
    cards[0].value.lemma_ordinal_injective(cards[4].value);
    cards[2].value.lemma_ordinal_injective(cards[3].value);
    cards[2].value.lemma_ordinal_injective(cards[4].value);
    cards[3].value.lemma_ordinal_injective(cards[4].value);
    match rank {
        Rank::FourOfAKind => {
            lemma_shape_four(o0, o1, o2, o3, o4);
        },
        Rank::FullHouse | Rank::ThreeOfAKind => {
            lemma_shape_three(o0, o1, o2, o3, o4);
        },
        Rank::TwoPairs => {
            let (v, w) = choose|v: CardValue, w: CardValue|
                v != w && #[trigger] count_value(hand, v) == 2 && #[trigger] count_value(hand, w)
                    == 2;
            assert(has_group(hand, 2));
            lemma_shape_two(o0, o1, o2, o3, o4);
            lemma_count_is_times(hand, cards, v);
            lemma_count_is_times(hand, cards, w);
            v.lemma_ordinal_injective(w);
        },
        Rank::OnePair => {
            lemma_shape_two(o0, o1, o2, o3, o4);
            lemma_count_is_times(hand, cards, cards[0].value);
            lemma_count_is_times(hand, cards, cards[2].value);
            if times(o2, o0, o1, o2, o3, o4) == 2 {
                assert(count_value(hand, cards[0].value) == 2);
                assert(count_value(hand, cards[2].value) == 2);
                assert(has_two_groups(hand, 2, 2));
            }
        },
        Rank::Straight | Rank::StraightFlush => {
            lemma_straight_iff_distinct_and_close(hand);
            lemma_distinct_values_descend(hand, cards);
            lemma_close_values_stay_close(hand, cards);
            assert(cards[0].value.ordinal_spec() - cards[4].value.ordinal_spec() < 5);
        },
        Rank::HighCard => {
            lemma_shape_single(o0, o1, o2, o3, o4);
        },
        Rank::Flush => {},
    }
}

/// Where all the values of a hand of five cards are different, its canonical
/// order lists the cards by value alone, the highest first.
pub proof fn lemma_distinct_values_descend(hand: Seq<Card>, cards: Seq<Card>)
    requires
        hand.len() == HAND_SIZE,
        values_distinct(hand),
        is_canonical_order(hand_counts(hand), cards, hand),
    ensures
        cards.len() == HAND_SIZE,
        ordinal_at(cards, 0) > ordinal_at(cards, 1) > ordinal_at(cards, 2) > ordinal_at(cards, 3)
            > ordinal_at(cards, 4),
{
    lemma_five_listed(hand, cards);
    lemma_count_is_times(hand, cards, cards[0].value);
    lemma_count_is_times(hand, cards, cards[1].value);
    lemma_count_is_times(hand, cards, cards[2].value);
    lemma_count_is_times(hand, cards, cards[3].value);
    lemma_count_is_times(hand, cards, cards[4].value);
    lemma_count_five(hand, cards[0].value);
    lemma_count_five(hand, cards[1].value);
    lemma_count_five(hand, cards[2].value);
    lemma_count_five(hand, cards[3].value);
    lemma_count_five(hand, cards[4].value);
}

/// No card of the canonical order of a hand of five cards is further above
/// another than some card of the hand is above another.
proof fn lemma_close_values_stay_close(hand: Seq<Card>, cards: Seq<Card>)
    requires
        hand.len() == HAND_SIZE,
        values_within(hand, 5),
        is_canonical_order(hand_counts(hand), cards, hand),
    ensures
        cards.len() == HAND_SIZE,
        values_within(cards, 5),
{
    vstd::seq_lib::to_multiset_len(cards);
    vstd::seq_lib::to_multiset_len(hand);
    assert forall|i: int, j: int| 0 <= i < cards.len() && 0 <= j < cards.len() implies (
    #[trigger] cards[i]).value.ordinal_spec() - (#[trigger] cards[j]).value.ordinal_spec() < 5 by {
        assert(cards.filter(has_value(cards[i].value)) == hand.filter(has_value(cards[i].value)));
        assert(cards.filter(has_value(cards[j].value)) == hand.filter(has_value(cards[j].value)));
        lemma_count_positive_iff_occurs(cards, cards[i].value);
        lemma_count_positive_iff_occurs(cards, cards[j].value);
        lemma_count_positive_iff_occurs(hand, cards[i].value);
        lemma_count_positive_iff_occurs(hand, cards[j].value);
        let p = choose|p: int| 0 <= p < hand.len() && (#[trigger] hand[p]).value == cards[i].value;
        let q = choose|q: int| 0 <= q < hand.len() && (#[trigger] hand[q]).value == cards[j].value;
        assert(hand[p].value.ordinal_spec() - hand[q].value.ordinal_spec() < 5);
    }
}

} // verus!
