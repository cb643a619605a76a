//! The nine categories of a five-card hand and the rules that assign one to a
//! hand.

use vstd::prelude::*;

use crate::card::{Card, CardValue, HAND_SIZE};
use crate::histogram::{
    count_value, entry_precedes, is_histogram, lemma_count_bounded, lemma_count_positive_iff_occurs,
    lemma_count_push,
};

verus! {

/// The category of a hand. The variants are listed from weakest to strongest.
#[derive(Debug, Clone, Copy, PartialEq, Eq, Structural, PartialOrd, Ord, Hash)]
pub enum Rank {
    HighCard,
    OnePair,
    TwoPairs,
    ThreeOfAKind,
    Straight,
    Flush,
    FullHouse,
    FourOfAKind,
    StraightFlush,
}

impl Rank {
    /// The position of a category in the order of categories: 0 for
    /// `HighCard`, 8 for `StraightFlush`.
    pub open spec fn strength_spec(self) -> int {
        match self {
            Rank::HighCard => 0,
            Rank::OnePair => 1,
            Rank::TwoPairs => 2,
            Rank::ThreeOfAKind => 3,
            Rank::Straight => 4,
            Rank::Flush => 5,
            Rank::FullHouse => 6,
            Rank::FourOfAKind => 7,
            Rank::StraightFlush => 8,
        }
    }

    /// The position of a category in the order of categories: 0 for
    /// `HighCard`, 8 for `StraightFlush`.
    pub fn strength(self) -> (position: u8)
        ensures
            position == self.strength_spec(),
    {
        match self {
            Rank::HighCard => 0,
            Rank::OnePair => 1,
            Rank::TwoPairs => 2,
            Rank::ThreeOfAKind => 3,
            Rank::Straight => 4,
            Rank::Flush => 5,
            Rank::FullHouse => 6,
            Rank::FourOfAKind => 7,
            Rank::StraightFlush => 8,
        }
    }

    /// Different categories have different positions, and every position lies
    /// between 0 and 8.
    pub proof fn lemma_strength_injective(self, other: Rank)
        ensures
            0 <= self.strength_spec() <= 8,
            self.strength_spec() == other.strength_spec() <==> self == other,
    {
    }
}

/// All the cards of the hand have the same suit.
pub open spec fn is_flush(hand: Seq<Card>) -> bool {
    forall|i: int| 0 <= i < hand.len() ==> (#[trigger] hand[i]).suit == hand[0].suit
}

/// Some card of the hand has the value at the position `ordinal`.
pub open spec fn has_ordinal(hand: Seq<Card>, ordinal: int) -> bool {
    exists|i: int| 0 <= i < hand.len() && (#[trigger] hand[i]).value.ordinal_spec() == ordinal
}

/// The values of the hand, from the lowest up, are the consecutive values that
/// start at the position `low`, as many as the hand has cards.
pub open spec fn is_run_from(hand: Seq<Card>, low: int) -> bool {
    forall|ordinal: int| low <= ordinal < low + hand.len() ==> #[trigger] has_ordinal(hand, ordinal)
}

/// The values of the hand, listed from the lowest up, rise by one position at
/// each step. An ace counts as the highest value only.
pub open spec fn is_straight(hand: Seq<Card>) -> bool {
    exists|low: int| #[trigger] is_run_from(hand, low)
}

/// No two cards of the hand have the same value.
pub open spec fn values_distinct(hand: Seq<Card>) -> bool {
    forall|i: int, j: int|
        0 <= i < j < hand.len() ==> (#[trigger] hand[i]).value != (#[trigger] hand[j]).value
}

/// No card of the hand is `width` or more positions above another.
pub open spec fn values_within(hand: Seq<Card>, width: int) -> bool {
    forall|i: int, j: int|
        0 <= i < hand.len() && 0 <= j < hand.len() ==> (#[trigger] hand[i]).value.ordinal_spec()
            - (#[trigger] hand[j]).value.ordinal_spec() < width
}

/// The category that the counts at the head of a histogram stand for: four of
/// a kind for a leading 4, a full house for 3 followed by 2, three of a kind
/// for any other leading 3, two pairs for 2 followed by 2, one pair for any
/// other leading 2, and a high card otherwise.
pub open spec fn pattern_rank(histogram: Seq<(CardValue, usize)>) -> Rank {
    if histogram.len() >= 1 && histogram[0].1 == 4 {
        Rank::FourOfAKind
    } else if histogram.len() >= 2 && histogram[0].1 == 3 && histogram[1].1 == 2 {
        Rank::FullHouse
    } else if histogram.len() >= 1 && histogram[0].1 == 3 {
        Rank::ThreeOfAKind
    } else if histogram.len() >= 2 && histogram[0].1 == 2 && histogram[1].1 == 2 {
        Rank::TwoPairs
    } else if histogram.len() >= 1 && histogram[0].1 == 2 {
        Rank::OnePair
    } else {
        Rank::HighCard
    }
}

/// The category of a hand with the histogram `histogram`: flush and straight
/// are looked at first, and a hand that is neither goes by the counts at the
/// head of the histogram.
pub open spec fn classification(histogram: Seq<(CardValue, usize)>, hand: Seq<Card>) -> Rank {
    if is_flush(hand) && is_straight(hand) {
        Rank::StraightFlush
    } else if is_flush(hand) {
        Rank::Flush
    } else if is_straight(hand) {
        Rank::Straight
    } else {
        pattern_rank(histogram)
    }
}

/// Five different integers among five consecutive ones leave none of them
/// out.
proof fn lemma_five_distinct_cover(a: int, b: int, c: int, d: int, e: int, low: int, target: int)
    requires
        low <= a < low + 5,
        low <= b < low + 5,
        low <= c < low + 5,
        low <= d < low + 5,
        low <= e < low + 5,
        a != b && a != c && a != d && a != e,
        b != c && b != d && b != e,
        c != d && c != e,
        d != e,
        low <= target < low + 5,
    ensures
        target == a || target == b || target == c || target == d || target == e,
{
}

/// In a straight of five cards the values are all different and the highest
/// is four positions above the lowest.
proof fn lemma_straight_is_distinct_and_close(hand: Seq<Card>)
    requires
        hand.len() == HAND_SIZE,
        is_straight(hand),
    ensures
        values_distinct(hand),
        values_within(hand, 5),
{
    let low = choose|low: int| #[trigger] is_run_from(hand, low);
    assert(has_ordinal(hand, low));
    assert(has_ordinal(hand, low + 1));
    assert(has_ordinal(hand, low + 2));
    assert(has_ordinal(hand, low + 3));
    assert(has_ordinal(hand, low + 4));
    let i0 = choose|i: int| 0 <= i < hand.len() && (#[trigger] hand[i]).value.ordinal_spec() == low;
    let i1 = choose|i: int|
        0 <= i < hand.len() && (#[trigger] hand[i]).value.ordinal_spec() == low + 1;
    let i2 = choose|i: int|
        0 <= i < hand.len() && (#[trigger] hand[i]).value.ordinal_spec() == low + 2;
    let i3 = choose|i: int|
        0 <= i < hand.len() && (#[trigger] hand[i]).value.ordinal_spec() == low + 3;
    let i4 = choose|i: int|
        0 <= i < hand.len() && (#[trigger] hand[i]).value.ordinal_spec() == low + 4;
    assert forall|i: int, j: int| 0 <= i < j < hand.len() implies (#[trigger] hand[i]).value != (
    #[trigger] hand[j]).value by {
        lemma_five_distinct_cover(i0, i1, i2, i3, i4, 0, i);
        lemma_five_distinct_cover(i0, i1, i2, i3, i4, 0, j);
    }
    assert forall|i: int, j: int| 0 <= i < hand.len() && 0 <= j < hand.len() implies (
    #[trigger] hand[i]).value.ordinal_spec() - (#[trigger] hand[j]).value.ordinal_spec() < 5 by {
        lemma_five_distinct_cover(i0, i1, i2, i3, i4, 0, i);
        lemma_five_distinct_cover(i0, i1, i2, i3, i4, 0, j);
    }
}

/// Five cards whose values are all different, none five or more positions
/// above another, form a straight.
proof fn lemma_distinct_and_close_is_straight(hand: Seq<Card>)
    requires
        hand.len() == HAND_SIZE,
        values_distinct(hand),
        values_within(hand, 5),
    ensures
        is_straight(hand),
{
    let o0 = hand[0].value.ordinal_spec();
    let o1 = hand[1].value.ordinal_spec();
    let o2 = hand[2].value.ordinal_spec();
    let o3 = hand[3].value.ordinal_spec();
    let o4 = hand[4].value.ordinal_spec();
    hand[0].value.lemma_ordinal_injective(hand[1].value);
    hand[0].value.lemma_ordinal_injective(hand[2].value);
    hand[0].value.lemma_ordinal_injective(hand[3].value);
    hand[0].value.lemma_ordinal_injective(hand[4].value);
    hand[1].value.lemma_ordinal_injective(hand[2].value);
    hand[1].value.lemma_ordinal_injective(hand[3].value);
    hand[1].value.lemma_ordinal_injective(hand[4].value);
    hand[2].value.lemma_ordinal_injective(hand[3].value);
    hand[2].value.lemma_ordinal_injective(hand[4].value);
    hand[3].value.lemma_ordinal_injective(hand[4].value);
    let m01 = if o0 <= o1 { o0 } else { o1 };
    let m23 = if o2 <= o3 { o2 } else { o3 };
    let m = if m01 <= m23 { m01 } else { m23 };
    let low = if m <= o4 { m } else { o4 };
    assert forall|ordinal: int| low <= ordinal < low + hand.len() implies #[trigger] has_ordinal(
        hand,
        ordinal,
    ) by {
        lemma_five_distinct_cover(o0, o1, o2, o3, o4, low, ordinal);
    }
    assert(is_run_from(hand, low));
}

/// A hand of five cards is a straight exactly when its values are all
/// different and the highest is four positions above the lowest.
pub proof fn lemma_straight_iff_distinct_and_close(hand: Seq<Card>)
    requires
        hand.len() == HAND_SIZE,
    ensures
        is_straight(hand) <==> values_distinct(hand) && values_within(hand, 5),
{
    if is_straight(hand) {
        lemma_straight_is_distinct_and_close(hand);
    }
    if values_distinct(hand) && values_within(hand, 5) {
        lemma_distinct_and_close_is_straight(hand);
    }
}

/// Some value occurs exactly `size` times in the hand.
pub open spec fn has_group(hand: Seq<Card>, size: nat) -> bool {
    exists|value: CardValue| #[trigger] count_value(hand, value) == size
}

/// Two different values occur in the hand, one exactly `first` times and the
/// other exactly `second` times.
pub open spec fn has_two_groups(hand: Seq<Card>, first: nat, second: nat) -> bool {
    exists|v: CardValue, w: CardValue|
        v != w && #[trigger] count_value(hand, v) == first && #[trigger] count_value(hand, w)
            == second
}

/// The category of a hand, stated over the hand alone: flush and straight are
/// looked at first, and a hand that is neither goes by the groups of equal
/// values in it, the strongest pattern first.
pub open spec fn rank_of(hand: Seq<Card>) -> Rank {
    if is_flush(hand) && is_straight(hand) {
        Rank::StraightFlush
    } else if is_flush(hand) {
        Rank::Flush
    } else if is_straight(hand) {
        Rank::Straight
    } else if has_group(hand, 4) {
        Rank::FourOfAKind
    } else if has_two_groups(hand, 3, 2) {
        Rank::FullHouse
    } else if has_group(hand, 3) {
        Rank::ThreeOfAKind
    } else if has_two_groups(hand, 2, 2) {
        Rank::TwoPairs
    } else if has_group(hand, 2) {
        Rank::OnePair
    } else {
        Rank::HighCard
    }
}

/// What it means for a hand to belong to the category `rank`, stated for each
/// category by itself.
pub open spec fn category_matches(hand: Seq<Card>, rank: Rank) -> bool {
    let plain = !is_flush(hand) && !is_straight(hand);
    match rank {
        Rank::StraightFlush => is_flush(hand) && is_straight(hand),
        Rank::Flush => is_flush(hand) && !is_straight(hand),
        Rank::Straight => !is_flush(hand) && is_straight(hand),
        Rank::FourOfAKind => plain && has_group(hand, 4),
        Rank::FullHouse => plain && has_group(hand, 3) && has_group(hand, 2),
        Rank::ThreeOfAKind => plain && has_group(hand, 3) && !has_group(hand, 2),
        Rank::TwoPairs => plain && has_two_groups(hand, 2, 2),
        Rank::OnePair => plain && has_group(hand, 2) && !has_two_groups(hand, 2, 2) && !has_group(
            hand,
            3,
        ),
        Rank::HighCard => plain && !has_group(hand, 2) && !has_group(hand, 3) && !has_group(
            hand,
            4,
        ),
    }
}

/// The cards of two different values are different cards: together they are
/// no more than the hand has.
pub proof fn lemma_two_values_fit(hand: Seq<Card>, v: CardValue, w: CardValue)
    requires
        v != w,
    ensures
        count_value(hand, v) + count_value(hand, w) <= hand.len(),
    decreases hand.len(),
{
    if hand.len() == 0 {
        lemma_count_bounded(hand, v);
        lemma_count_bounded(hand, w);
    } else {
        let rest = hand.drop_last();
        lemma_two_values_fit(rest, v, w);
        assert(hand =~= rest.push(hand.last()));
        lemma_count_push(rest, hand.last(), v);
        lemma_count_push(rest, hand.last(), w);
    }
}

/// The cards of three different values are different cards: together they are
/// no more than the hand has.
pub proof fn lemma_three_values_fit(hand: Seq<Card>, u: CardValue, v: CardValue, w: CardValue)
    requires
        u != v,
        u != w,
        v != w,
    ensures
        count_value(hand, u) + count_value(hand, v) + count_value(hand, w) <= hand.len(),
    decreases hand.len(),
{
    if hand.len() == 0 {
        lemma_count_bounded(hand, u);
        lemma_count_bounded(hand, v);
        lemma_count_bounded(hand, w);
    } else {
        let rest = hand.drop_last();
        lemma_three_values_fit(rest, u, v, w);
        assert(hand =~= rest.push(hand.last()));
        lemma_count_push(rest, hand.last(), u);
        lemma_count_push(rest, hand.last(), v);
        lemma_count_push(rest, hand.last(), w);
    }
}

/// Every hand of five cards belongs to exactly one category: the one that
/// `rank_of` names. The nine categories leave no hand out, and no hand belongs
/// to two of them.
pub proof fn lemma_exactly_one_category(hand: Seq<Card>, rank: Rank)
    requires
        hand.len() == HAND_SIZE,
    ensures
        category_matches(hand, rank) <==> rank == rank_of(hand),
{
    if has_group(hand, 4) {
        let four = choose|value: CardValue| #[trigger] count_value(hand, value) == 4;
        assert forall|value: CardValue| value != four implies #[trigger] count_value(hand, value)
            <= 1 by {
            lemma_two_values_fit(hand, four, value);
        }
    }
    if has_group(hand, 3) {
        let three = choose|value: CardValue| #[trigger] count_value(hand, value) == 3;
        assert forall|value: CardValue| value != three implies #[trigger] count_value(hand, value)
            <= 2 by {
            lemma_two_values_fit(hand, three, value);
        }
        if has_two_groups(hand, 2, 2) {
            let (v, w) = choose|v: CardValue, w: CardValue|
                v != w && #[trigger] count_value(hand, v) == 2 && #[trigger] count_value(hand, w)
                    == 2;
            lemma_three_values_fit(hand, three, v, w);
        }
        if has_group(hand, 2) {
            let two = choose|value: CardValue| #[trigger] count_value(hand, value) == 2;
            assert(three != two);
            assert(count_value(hand, three) == 3 && count_value(hand, two) == 2);
            assert(has_two_groups(hand, 3, 2));
        }
    }
    if has_two_groups(hand, 3, 2) {
        let (v, w) = choose|v: CardValue, w: CardValue|
            v != w && #[trigger] count_value(hand, v) == 3 && #[trigger] count_value(hand, w) == 2;
        assert(has_group(hand, 3));
        assert(has_group(hand, 2));
    }
    if has_two_groups(hand, 2, 2) {
        let (v, w) = choose|v: CardValue, w: CardValue|
            v != w && #[trigger] count_value(hand, v) == 2 && #[trigger] count_value(hand, w) == 2;
        assert(has_group(hand, 2));
    }
}

/// In the histogram of a hand, an earlier entry counts at least as many cards
/// as a later one, the two are about different values, and together they
/// count no more cards than the hand has.
proof fn lemma_entry_pair(histogram: Seq<(CardValue, usize)>, hand: Seq<Card>, i: int, j: int)
    requires
        is_histogram(histogram, hand),
        0 <= i < j < histogram.len(),
    ensures
        histogram[i].0 != histogram[j].0,
        histogram[i].1 >= histogram[j].1,
        histogram[i].1 + histogram[j].1 <= hand.len(),
{
    assert(entry_precedes(histogram[i], histogram[j]));
    lemma_two_values_fit(hand, histogram[i].0, histogram[j].0);
}

/// The entry that the histogram of a hand has for a value that occurs in it.
proof fn lemma_entry_of(histogram: Seq<(CardValue, usize)>, hand: Seq<Card>, value: CardValue) -> (k:
    int)
    requires
        is_histogram(histogram, hand),
        count_value(hand, value) >= 1,
    ensures
        0 <= k < histogram.len(),
        histogram[k].0 == value,
        histogram[k].1 == count_value(hand, value),
{
    choose|k: int| 0 <= k < histogram.len() && (#[trigger] histogram[k]).0 == value
}

/// Read off the true histogram of a hand of five cards, the counts at its
/// head give the category that the groups of equal values in the hand stand
/// for: `rank_hand` returns `rank_of` of the hand.
pub proof fn lemma_classification_by_groups(histogram: Seq<(CardValue, usize)>, hand: Seq<Card>)
    requires
        hand.len() == HAND_SIZE,
        is_histogram(histogram, hand),
    ensures
        classification(histogram, hand) == rank_of(hand),
{
    lemma_count_positive_iff_occurs(hand, hand[0].value);
    let head = lemma_entry_of(histogram, hand, hand[0].value);
    let first = histogram[0];
    lemma_count_bounded(hand, first.0);
    if has_group(hand, 4) {
        let v = choose|value: CardValue| #[trigger] count_value(hand, value) == 4;
        let i = lemma_entry_of(histogram, hand, v);
        if i > 0 {
            lemma_entry_pair(histogram, hand, 0, i);
        }
        assert(first.1 == 4);
    }
    if first.1 == 4 {
        assert(count_value(hand, first.0) == 4);
    }
    if has_group(hand, 3) {
        let v = choose|value: CardValue| #[trigger] count_value(hand, value) == 3;
        let i = lemma_entry_of(histogram, hand, v);
        if i > 0 {
            lemma_entry_pair(histogram, hand, 0, i);
        }
        assert(first.1 == 3);
    }
    if first.1 == 3 {
        assert(count_value(hand, first.0) == 3);
    }
    if has_two_groups(hand, 3, 2) {
        let (v, w) = choose|v: CardValue, w: CardValue|
            v != w && #[trigger] count_value(hand, v) == 3 && #[trigger] count_value(hand, w) == 2;
        assert(has_group(hand, 3));
        let j = lemma_entry_of(histogram, hand, w);
        lemma_entry_pair(histogram, hand, 0, 1);
        if j > 1 {
            lemma_entry_pair(histogram, hand, 1, j);
        }
        assert(histogram[1].1 == 2);
    }
    if histogram.len() >= 2 {
        lemma_entry_pair(histogram, hand, 0, 1);
        let second = histogram[1];
        if first.1 == 3 && second.1 == 2 {
            assert(count_value(hand, first.0) == 3 && count_value(hand, second.0) == 2);
            assert(has_two_groups(hand, 3, 2));
        }
        if first.1 == 2 && second.1 == 2 {
            assert(count_value(hand, first.0) == 2 && count_value(hand, second.0) == 2);
            assert(has_two_groups(hand, 2, 2));
        }
    }
    if first.1 != 4 && first.1 != 3 {
        if has_group(hand, 2) {
            let v = choose|value: CardValue| #[trigger] count_value(hand, value) == 2;
            let i = lemma_entry_of(histogram, hand, v);
            if i > 0 {
                lemma_entry_pair(histogram, hand, 0, i);
            }
            assert(first.1 == 2);
        }
        if has_two_groups(hand, 2, 2) {
            let (v, w) = choose|v: CardValue, w: CardValue|
                v != w && #[trigger] count_value(hand, v) == 2 && #[trigger] count_value(hand, w)
                    == 2;
            assert(has_group(hand, 2));
            let i = lemma_entry_of(histogram, hand, v);
            let j = lemma_entry_of(histogram, hand, w);
            let later = if i < j { j } else { i };
            lemma_entry_pair(histogram, hand, 0, 1);
            if later > 1 {
                lemma_entry_pair(histogram, hand, 1, later);
            }
            assert(histogram[1].1 == 2);
        }
    }
    if first.1 == 2 {
        assert(count_value(hand, first.0) == 2);
    }
}

/// Whether all the cards of a hand have the same suit.
pub fn check_flush(hand: &[Card]) -> (flush: bool)
    requires
        hand@.len() == HAND_SIZE,
    ensures
        flush == is_flush(hand@),
{
    let first_suit = hand[0].suit;
    let mut i: usize = 1;
    while i < hand.len()
        invariant
            1 <= i <= hand@.len(),
            first_suit == hand@[0].suit,
            forall|k: int| 0 <= k < i ==> (#[trigger] hand@[k]).suit == first_suit,
        decreases hand@.len() - i,
    {
        if hand[i].suit != first_suit {
            return false;
        }
        i = i + 1;
    }
    true
}

/// Whether the values of a hand, listed from the lowest up, rise by one
/// position at each step. An ace counts as the highest value only, so ace to
/// five is no straight.
pub fn check_straight(hand: &[Card]) -> (straight: bool)
    requires
        hand@.len() == HAND_SIZE,
    ensures
        straight == is_straight(hand@),
{
    proof {
        lemma_straight_iff_distinct_and_close(hand@);
    }
    let mut i: usize = 0;
    while i < hand.len()
        invariant
            i <= hand@.len(),
            is_straight(hand@) <==> values_distinct(hand@) && values_within(hand@, 5),
            forall|k: int, l: int|
                0 <= k < i && k < l < hand@.len() ==> (#[trigger] hand@[k]).value != (
                #[trigger] hand@[l]).value,
            forall|k: int, l: int|
                0 <= k < i && 0 <= l < hand@.len() ==> (#[trigger] hand@[k]).value.ordinal_spec()
                    - (#[trigger] hand@[l]).value.ordinal_spec() < 5,
        decreases hand@.len() - i,
    {
        let here: u8 = hand[i].value.ordinal();
        let mut j: usize = 0;
        while j < hand.len()
            invariant
                i < hand@.len(),
                j <= hand@.len(),
                is_straight(hand@) <==> values_distinct(hand@) && values_within(hand@, 5),
                here == hand@[i as int].value.ordinal_spec(),
                forall|l: int|
                    i < l < j ==> hand@[i as int].value != (#[trigger] hand@[l]).value,
                forall|l: int|
                    0 <= l < j ==> here - (#[trigger] hand@[l]).value.ordinal_spec() < 5,
            decreases hand@.len() - j,
        {
            let there: u8 = hand[j].value.ordinal();
            proof {
                hand@[i as int].value.lemma_ordinal_injective(hand@[j as int].value);
            }
            if j > i && there == here {
                return false;
            }
            if here >= there && here - there >= 5 {
                return false;
            }
            j = j + 1;
        }
        i = i + 1;
    }
    true
}

/// Classifies a hand of five cards, given its histogram. A hand that is a
/// flush and a straight is a straight flush; one that is a flush only, a
/// flush; one that is a straight only, a straight. Any other hand goes by the
/// counts of the first one or two histogram entries: 4 means four of a kind, 3
/// then 2 a full house, 3 three of a kind, 2 then 2 two pairs, 2 one pair, and
/// anything else a high card.
pub fn rank_hand(histogram: &[(CardValue, usize)], hand: &[Card]) -> (rank: Rank)
    requires
        hand@.len() == HAND_SIZE,
    ensures
        rank == classification(histogram@, hand@),
{
    let has_flush = check_flush(hand);
    let has_straight = check_straight(hand);
    if has_flush && has_straight {
        Rank::StraightFlush
    } else if has_flush {
        Rank::Flush
    } else if has_straight {
        Rank::Straight
    } else {
        let entries: usize = histogram.len();
        let first: usize = if entries >= 1 {
            histogram[0].1
        } else {
            0
        };
        let second: usize = if entries >= 2 {
            histogram[1].1
        } else {
            0
        };
        if first == 4 {
            Rank::FourOfAKind
        } else if first == 3 && second == 2 {
            Rank::FullHouse
        } else if first == 3 {
            Rank::ThreeOfAKind
        } else if first == 2 && second == 2 {
            Rank::TwoPairs
        } else if first == 2 {
            Rank::OnePair
        } else {
            Rank::HighCard
        }
    }
}

} // verus!
