//! The histogram of a hand: each value that occurs in it with the number of
//! its occurrences, the most frequent first and among equally frequent values
//! the highest first.

use vstd::prelude::*;

use crate::card::{Card, CardValue};

verus! {

/// The test "this card has the value `value`".
pub open spec fn has_value(value: CardValue) -> spec_fn(Card) -> bool {
    |card: Card| card.value == value
}

/// The number of cards in `hand` that have the value `value`.
pub open spec fn count_value(hand: Seq<Card>, value: CardValue) -> nat {
    hand.filter(has_value(value)).len()
}

/// The order by which histogram entries and the cards of a canonical hand are
/// listed: a value that occurs more often goes first, and of two values that
/// occur equally often the higher one.
pub open spec fn key_precedes(
    count_a: int,
    value_a: CardValue,
    count_b: int,
    value_b: CardValue,
) -> bool {
    count_a > count_b || (count_a == count_b && value_a.ordinal_spec() > value_b.ordinal_spec())
}

/// The histogram entry `a` is listed before the entry `b`.
pub open spec fn entry_precedes(a: (CardValue, usize), b: (CardValue, usize)) -> bool {
    key_precedes(a.1 as int, a.0, b.1 as int, b.0)
}

/// Some entry of `histogram` is about the value `value`.
pub open spec fn holds_value(histogram: Seq<(CardValue, usize)>, value: CardValue) -> bool {
    exists|k: int| 0 <= k < histogram.len() && (#[trigger] histogram[k]).0 == value
}

/// Every entry of `histogram` is listed before all the entries after it.
pub open spec fn strictly_ordered(histogram: Seq<(CardValue, usize)>) -> bool {
    forall|i: int, j: int|
        0 <= i < j < histogram.len() ==> entry_precedes(
            #[trigger] histogram[i],
            #[trigger] histogram[j],
        )
}

/// Every entry of `histogram` gives a value that occurs in `hand`, with the
/// number of its occurrences.
pub open spec fn counts_match(histogram: Seq<(CardValue, usize)>, hand: Seq<Card>) -> bool {
    forall|k: int|
        0 <= k < histogram.len() ==> (#[trigger] histogram[k]).1 >= 1 && histogram[k].1
            == count_value(hand, histogram[k].0)
}

/// `histogram` is the histogram of `hand`: it has one entry for each value that
/// occurs in `hand`, the entry gives the number of occurrences, and the
/// entries are ordered by that number, descending, and then by value,
/// descending.
pub open spec fn is_histogram(histogram: Seq<(CardValue, usize)>, hand: Seq<Card>) -> bool {
    &&& counts_match(histogram, hand)
    &&& forall|value: CardValue| #[trigger]
        count_value(hand, value) >= 1 ==> holds_value(histogram, value)
    &&& strictly_ordered(histogram)
}

/// Counting over a hand with one more card at its end.
pub proof fn lemma_count_push(hand: Seq<Card>, card: Card, value: CardValue)
    ensures
        count_value(hand.push(card), value) == count_value(hand, value) + if card.value == value {
            1nat
        } else {
            0nat
        },
{
    hand.lemma_filter_push(card, has_value(value));
}

/// No value occurs more often than the hand has cards.
pub proof fn lemma_count_bounded(hand: Seq<Card>, value: CardValue)
    ensures
        count_value(hand, value) <= hand.len(),
{
    hand.lemma_filter_len(has_value(value));
}

/// A value is counted at least once exactly when some card of the hand has it.
pub proof fn lemma_count_positive_iff_occurs(hand: Seq<Card>, value: CardValue)
    ensures
        count_value(hand, value) >= 1 <==> exists|j: int|
            0 <= j < hand.len() && (#[trigger] hand[j]).value == value,
{
    let pred = has_value(value);
    let kept = hand.filter(pred);
    if kept.len() >= 1 {
        hand.lemma_filter_pred(pred, 0);
        assert(kept.contains(kept[0]));
        hand.lemma_filter_contains_rev(pred, kept[0]);
        let j = choose|j: int| 0 <= j < hand.len() && hand[j] == kept[0];
        assert(hand[j].value == value);
    }
    if exists|j: int| 0 <= j < hand.len() && (#[trigger] hand[j]).value == value {
        let j = choose|j: int| 0 <= j < hand.len() && (#[trigger] hand[j]).value == value;
        hand.lemma_filter_contains(pred, j);
    }
}

/// Of two entries about different values, one is listed before the other.
proof fn lemma_entry_order_total(a: (CardValue, usize), b: (CardValue, usize))
    requires
        a.0 != b.0,
    ensures
        entry_precedes(a, b) || entry_precedes(b, a),
{
    a.0.lemma_ordinal_injective(b.0);
}

/// Two ordered histograms that hold the same entries are the same sequence.
proof fn lemma_same_entries(a: Seq<(CardValue, usize)>, b: Seq<(CardValue, usize)>)
    requires
        strictly_ordered(a),
        strictly_ordered(b),
        forall|entry: (CardValue, usize)| a.contains(entry) <==> b.contains(entry),
    ensures
        a == b,
    decreases a.len(),
{
    if a.len() == 0 {
        if b.len() > 0 {
            assert(b.contains(b[0]));
        }
        assert(a =~= b);
    } else {
        assert(a.contains(a[0]));
        assert(b.len() > 0);
        let x = a.last();
        let y = b.last();
        assert(a.contains(x));
        assert(b.contains(y));
        let i = choose|i: int| 0 <= i < a.len() && a[i] == y;
        let j = choose|j: int| 0 <= j < b.len() && b[j] == x;
        if i < a.len() - 1 {
            assert(entry_precedes(a[i], a[a.len() - 1]));
        }
        if j < b.len() - 1 {
            assert(entry_precedes(b[j], b[b.len() - 1]));
        }
        assert(x == y);
        let a_rest = a.drop_last();
        let b_rest = b.drop_last();
        assert forall|entry: (CardValue, usize)| a_rest.contains(entry) <==> b_rest.contains(
            entry,
        ) by {
            if a_rest.contains(entry) {
                let k = choose|k: int| 0 <= k < a_rest.len() && a_rest[k] == entry;
                assert(entry_precedes(a[k], a[a.len() - 1]));
                assert(a.contains(entry));
                let m = choose|m: int| 0 <= m < b.len() && b[m] == entry;
                assert(b_rest[m] == entry);
            }
            if b_rest.contains(entry) {
                let k = choose|k: int| 0 <= k < b_rest.len() && b_rest[k] == entry;
                assert(entry_precedes(b[k], b[b.len() - 1]));
                assert(b.contains(entry));
                let m = choose|m: int| 0 <= m < a.len() && a[m] == entry;
                assert(a_rest[m] == entry);
            }
        }
        assert forall|p: int, q: int| 0 <= p < q < a_rest.len() implies entry_precedes(
            #[trigger] a_rest[p],
            #[trigger] a_rest[q],
        ) by {
            assert(a_rest[p] == a[p] && a_rest[q] == a[q]);
        }
        assert forall|p: int, q: int| 0 <= p < q < b_rest.len() implies entry_precedes(
            #[trigger] b_rest[p],
            #[trigger] b_rest[q],
        ) by {
            assert(b_rest[p] == b[p] && b_rest[q] == b[q]);
        }
        lemma_same_entries(a_rest, b_rest);
        assert(a =~= a_rest.push(x));
        assert(b =~= b_rest.push(y));
    }
}

/// Every entry of the histogram of a hand is an entry of any other histogram
/// of that hand.
proof fn lemma_entry_shared(
    first: Seq<(CardValue, usize)>,
    second: Seq<(CardValue, usize)>,
    hand: Seq<Card>,
    entry: (CardValue, usize),
)
    requires
        is_histogram(first, hand),
        is_histogram(second, hand),
        first.contains(entry),
    ensures
        second.contains(entry),
{
    let k = choose|k: int| 0 <= k < first.len() && first[k] == entry;
    assert(first[k].1 >= 1 && first[k].1 == count_value(hand, first[k].0));
    assert(holds_value(second, entry.0));
    let m = choose|m: int| 0 <= m < second.len() && (#[trigger] second[m]).0 == entry.0;
    assert(second[m].1 == count_value(hand, second[m].0));
    assert(second[m] == entry);
}

/// A hand has one histogram and no other: the order of the entries leaves
/// nothing open.
pub proof fn lemma_histogram_unique(
    first: Seq<(CardValue, usize)>,
    second: Seq<(CardValue, usize)>,
    hand: Seq<Card>,
)
    requires
        is_histogram(first, hand),
        is_histogram(second, hand),
    ensures
        first == second,
{
    assert forall|entry: (CardValue, usize)| first.contains(entry) <==> second.contains(entry) by {
        if first.contains(entry) {
            lemma_entry_shared(first, second, hand, entry);
        }
        if second.contains(entry) {
            lemma_entry_shared(second, first, hand, entry);
        }
    }
    lemma_same_entries(first, second);
}

/// The sum of the counts of a histogram.
pub open spec fn total_count(histogram: Seq<(CardValue, usize)>) -> nat
    decreases histogram.len(),
{
    if histogram.len() == 0 {
        0
    } else {
        total_count(histogram.drop_last()) + histogram.last().1 as nat
    }
}

/// The test "the histogram has an entry about the value of this card".
pub open spec fn is_counted(histogram: Seq<(CardValue, usize)>) -> spec_fn(Card) -> bool {
    |card: Card| holds_value(histogram, card.value)
}

/// The cards that pass one of two tests that no card passes both of are as
/// many as those that pass the one and those that pass the other.
proof fn lemma_filter_either(
    hand: Seq<Card>,
    either: spec_fn(Card) -> bool,
    one: spec_fn(Card) -> bool,
    other: spec_fn(Card) -> bool,
)
    requires
        forall|card: Card| #[trigger] either(card) <==> one(card) || other(card),
        forall|card: Card| !(#[trigger] one(card) && other(card)),
    ensures
        hand.filter(either).len() == hand.filter(one).len() + hand.filter(other).len(),
    decreases hand.len(),
{
    if hand.len() == 0 {
        hand.lemma_filter_len(either);
        hand.lemma_filter_len(one);
        hand.lemma_filter_len(other);
    } else {
        let rest = hand.drop_last();
        let card = hand.last();
        lemma_filter_either(rest, either, one, other);
        assert(hand =~= rest.push(card));
        rest.lemma_filter_push(card, either);
        rest.lemma_filter_push(card, one);
        rest.lemma_filter_push(card, other);
        assert(either(card) <==> one(card) || other(card));
        assert(!(one(card) && other(card)));
    }
}

/// The counts of a histogram whose entries are about different values add up
/// to the number of cards whose value has an entry.
proof fn lemma_total_is_counted(histogram: Seq<(CardValue, usize)>, hand: Seq<Card>)
    requires
        counts_match(histogram, hand),
        strictly_ordered(histogram),
    ensures
        total_count(histogram) == hand.filter(is_counted(histogram)).len(),
    decreases histogram.len(),
{
    if histogram.len() == 0 {
        assert forall|k: int| 0 <= k < hand.len() implies !is_counted(histogram)(
            #[trigger] hand[k],
        ) by {}
        let kept = hand.filter(is_counted(histogram));
        if kept.len() > 0 {
            hand.lemma_filter_pred(is_counted(histogram), 0);
        }
    } else {
        let rest = histogram.drop_last();
        let entry = histogram.last();
        assert forall|k: int| 0 <= k < rest.len() implies (#[trigger] rest[k]).1 >= 1 && rest[k].1
            == count_value(hand, rest[k].0) by {
            assert(rest[k] == histogram[k]);
        }
        assert forall|p: int, q: int| 0 <= p < q < rest.len() implies entry_precedes(
            #[trigger] rest[p],
            #[trigger] rest[q],
        ) by {
            assert(rest[p] == histogram[p] && rest[q] == histogram[q]);
        }
        lemma_total_is_counted(rest, hand);
        assert forall|card: Card| #[trigger]
            is_counted(histogram)(card) <==> is_counted(rest)(card) || has_value(entry.0)(
                card,
            ) by {
            if holds_value(histogram, card.value) {
                let k = choose|k: int|
                    0 <= k < histogram.len() && (#[trigger] histogram[k]).0 == card.value;
                if k < rest.len() {
                    assert(rest[k] == histogram[k]);
                }
            }
            if holds_value(rest, card.value) {
                let k = choose|k: int| 0 <= k < rest.len() && (#[trigger] rest[k]).0 == card.value;
                assert(histogram[k] == rest[k]);
            }
            if card.value == entry.0 {
                assert(histogram[histogram.len() - 1].0 == card.value);
            }
        }
        assert forall|card: Card| !(#[trigger] is_counted(rest)(card) && has_value(entry.0)(
            card,
        )) by {
            if holds_value(rest, card.value) && card.value == entry.0 {
                let k = choose|k: int| 0 <= k < rest.len() && (#[trigger] rest[k]).0 == card.value;
                assert(entry_precedes(histogram[k], histogram[histogram.len() - 1]));
            }
        }
        lemma_filter_either(hand, is_counted(histogram), is_counted(rest), has_value(entry.0));
    }
}

/// The histogram of a hand accounts for every card once: each count is at
/// least 1 and at most the number of cards, and the counts add up to the
/// number of cards.
pub proof fn lemma_histogram_counts_every_card(histogram: Seq<(CardValue, usize)>, hand: Seq<Card>)
    requires
        is_histogram(histogram, hand),
    ensures
        total_count(histogram) == hand.len(),
        forall|k: int| 0 <= k < histogram.len() ==> 1 <= (#[trigger] histogram[k]).1 <= hand.len(),
{
    lemma_total_is_counted(histogram, hand);
    let counted = is_counted(histogram);
    assert forall|k: int| 0 <= k < hand.len() implies counted(#[trigger] hand[k]) by {
        lemma_count_positive_iff_occurs(hand, hand[k].value);
    }
    lemma_filter_all(hand, counted);
    assert forall|k: int| 0 <= k < histogram.len() implies 1 <= (#[trigger] histogram[k]).1
        <= hand.len() by {
        lemma_count_bounded(hand, histogram[k].0);
    }
}

/// Where every card passes a test, filtering by it leaves the hand as it is.
proof fn lemma_filter_all(hand: Seq<Card>, pred: spec_fn(Card) -> bool)
    requires
        forall|k: int| 0 <= k < hand.len() ==> pred(#[trigger] hand[k]),
    ensures
        hand.filter(pred) == hand,
    decreases hand.len(),
{
    if hand.len() == 0 {
        hand.lemma_filter_len(pred);
        assert(hand.filter(pred) =~= hand);
    } else {
        let rest = hand.drop_last();
        assert forall|k: int| 0 <= k < rest.len() implies pred(#[trigger] rest[k]) by {
            assert(rest[k] == hand[k]);
        }
        lemma_filter_all(rest, pred);
        assert(hand =~= rest.push(hand.last()));
        rest.lemma_filter_push(hand.last(), pred);
    }
}

/// The number of cards in `cards` that have the value `value`.
fn count_occurrences(cards: &[Card], value: CardValue) -> (count: usize)
    ensures
        count == count_value(cards@, value),
{
    let mut count: usize = 0;
    let mut i: usize = 0;
    while i < cards.len()
        invariant
            i <= cards@.len(),
            count <= i,
            count == count_value(cards@.take(i as int), value),
        decreases cards@.len() - i,
    {
        proof {
            assert(cards@.take(i + 1) =~= cards@.take(i as int).push(cards@[i as int]));
            lemma_count_push(cards@.take(i as int), cards@[i as int], value);
        }
        if cards[i].value == value {
            count = count + 1;
        }
        i = i + 1;
    }
    assert(cards@.take(cards@.len() as int) =~= cards@);
    count
}

/// Whether some entry of `histogram` is about the value `value`.
fn has_entry_for(histogram: &Vec<(CardValue, usize)>, value: CardValue) -> (found: bool)
    ensures
        found == holds_value(histogram@, value),
{
    let mut k: usize = 0;
    while k < histogram.len()
        invariant
            k <= histogram@.len(),
            forall|m: int| 0 <= m < k ==> (#[trigger] histogram@[m]).0 != value,
        decreases histogram@.len() - k,
    {
        if histogram[k].0 == value {
            return true;
        }
        k = k + 1;
    }
    false
}

/// Whether the entry `a` is listed before the entry `b`.
fn entry_goes_before(a: (CardValue, usize), b: (CardValue, usize)) -> (before: bool)
    ensures
        before == entry_precedes(a, b),
{
    a.1 > b.1 || (a.1 == b.1 && a.0.ordinal() > b.0.ordinal())
}

/// Puts `entry` into an ordered histogram at the place that keeps it ordered,
/// and returns that place.
fn insert_entry(histogram: &mut Vec<(CardValue, usize)>, entry: (CardValue, usize)) -> (place: usize)
    requires
        strictly_ordered(old(histogram)@),
        !holds_value(old(histogram)@, entry.0),
    ensures
        place <= old(histogram)@.len(),
        final(histogram)@ == old(histogram)@.insert(place as int, entry),
        strictly_ordered(final(histogram)@),
{
    let ghost before = histogram@;
    let mut place: usize = 0;
    while place < histogram.len() && entry_goes_before(histogram[place], entry)
        invariant
            histogram@ == before,
            place <= before.len(),
            forall|k: int| 0 <= k < place ==> entry_precedes(#[trigger] before[k], entry),
        decreases before.len() - place,
    {
        place = place + 1;
    }
    proof {
        assert forall|k: int| place <= k < before.len() implies entry_precedes(
            entry,
            #[trigger] before[k],
        ) by {
            assert(before[place as int].0 != entry.0);
            lemma_entry_order_total(before[place as int], entry);
            if place < k {
                assert(entry_precedes(before[place as int], before[k]));
            }
        }
    }
    histogram.insert(place, entry);
    proof {
        let after = histogram@;
        assert forall|i: int, j: int| 0 <= i < j < after.len() implies entry_precedes(
            #[trigger] after[i],
            #[trigger] after[j],
        ) by {
            if j < place {
                assert(after[i] == before[i] && after[j] == before[j]);
            } else if j == place {
                assert(after[i] == before[i] && after[j] == entry);
            } else if i < place {
                assert(after[i] == before[i] && after[j] == before[j - 1]);
            } else if i == place {
                assert(after[i] == entry && after[j] == before[j - 1]);
            } else {
                assert(after[i] == before[i - 1] && after[j] == before[j - 1]);
            }
        }
    }
    place
}

/// Builds the histogram of a hand: one entry for each value that occurs among
/// the cards, with the number of cards that have it. The entries are ordered
/// by that number, descending, and entries with the same number by value,
/// descending.
pub fn get_card_value_histogram(cards: &[Card]) -> (histogram: Vec<(CardValue, usize)>)
    ensures
        is_histogram(histogram@, cards@),
{
    let mut histogram: Vec<(CardValue, usize)> = Vec::new();
    let mut i: usize = 0;
    while i < cards.len()
        invariant
            i <= cards@.len(),
            counts_match(histogram@, cards@),
            strictly_ordered(histogram@),
            forall|j: int| 0 <= j < i ==> holds_value(histogram@, (#[trigger] cards@[j]).value),
        decreases cards@.len() - i,
    {
        let value = cards[i].value;
        if !has_entry_for(&histogram, value) {
            let count: usize = count_occurrences(cards, value);
            proof {
                lemma_count_positive_iff_occurs(cards@, value);
            }
            let ghost before = histogram@;
            let place: usize = insert_entry(&mut histogram, (value, count));
            proof {
                let after = histogram@;
                assert(after[place as int] == (value, count));
                assert forall|k: int| 0 <= k < after.len() implies (#[trigger] after[k]).1 >= 1
                    && after[k].1 == count_value(cards@, after[k].0) by {
                    if k < place {
                        assert(after[k] == before[k]);
                    } else if k > place {
                        assert(after[k] == before[k - 1]);
                    }
                }
                assert forall|j: int| 0 <= j <= i implies holds_value(
                    after,
                    (#[trigger] cards@[j]).value,
                ) by {
                    if cards@[j].value != value {
                        let k = choose|k: int|
                            0 <= k < before.len() && (#[trigger] before[k]).0 == cards@[j].value;
                        if k < place {
                            assert(after[k] == before[k]);
                        } else {
                            assert(after[k + 1] == before[k]);
                        }
                    }
                }
            }
        }
        i = i + 1;
    }
    proof {
        assert forall|value: CardValue| #[trigger]
            count_value(cards@, value) >= 1 implies holds_value(histogram@, value) by {
            lemma_count_positive_iff_occurs(cards@, value);
            let j = choose|j: int| 0 <= j < cards@.len() && (#[trigger] cards@[j]).value == value;
            assert(holds_value(histogram@, cards@[j].value));
        }
    }
    histogram
}

} // verus!
