//! The canonical order of a hand: its cards listed by how often their value
//! occurs, the most frequent first, then by value, the highest first, so that
//! the cards that decide between hands stand at fixed positions.

use vstd::prelude::*;
use vstd::seq_lib::{to_multiset_build, to_multiset_contains, to_multiset_insert, to_multiset_len};

use crate::card::{Card, CardValue};
use crate::histogram::{
    count_value, entry_precedes, has_value, holds_value, is_histogram, key_precedes,
};

verus! {

/// The count that a histogram lists for a value: that of its first entry
/// about the value, and 0 where it has none.
pub open spec fn listed_count(histogram: Seq<(CardValue, usize)>, value: CardValue) -> nat
    decreases histogram.len(),
{
    if histogram.len() == 0 {
        0
    } else if histogram[0].0 == value {
        histogram[0].1 as nat
    } else {
        listed_count(histogram.drop_first(), value)
    }
}

/// The counts that a histogram lists, as a function of the value.
pub open spec fn histogram_counts(histogram: Seq<(CardValue, usize)>) -> spec_fn(CardValue) -> nat {
    |value: CardValue| listed_count(histogram, value)
}

/// How often each value occurs in a hand, as a function of the value.
pub open spec fn hand_counts(hand: Seq<Card>) -> spec_fn(CardValue) -> nat {
    |value: CardValue| count_value(hand, value)
}

/// Under the counts `count`, the card `a` belongs strictly before the card
/// `b`: its value has the higher count, or the same count and is the higher
/// value.
pub open spec fn card_precedes(count: spec_fn(CardValue) -> nat, a: Card, b: Card) -> bool {
    key_precedes(count(a.value) as int, a.value, count(b.value) as int, b.value)
}

/// No card of `cards` stands behind a card that it belongs strictly before.
pub open spec fn ordered_by(count: spec_fn(CardValue) -> nat, cards: Seq<Card>) -> bool {
    forall|i: int, j: int|
        0 <= i < j < cards.len() ==> !card_precedes(count, #[trigger] cards[j], #[trigger] cards[i])
}

/// The cards of each value stand in `cards` in the order in which they stand
/// in `hand`.
pub open spec fn same_order_within_values(cards: Seq<Card>, hand: Seq<Card>) -> bool {
    forall|value: CardValue| #[trigger]
        cards.filter(has_value(value)) == hand.filter(has_value(value))
}

/// `cards` is the canonical order of `hand` under the counts `count`: it holds
/// the same cards, ordered by count, descending, and then by value,
/// descending, and cards of the same value keep the order they have in
/// `hand`.
pub open spec fn is_canonical_order(
    count: spec_fn(CardValue) -> nat,
    cards: Seq<Card>,
    hand: Seq<Card>,
) -> bool {
    &&& cards.to_multiset() == hand.to_multiset()
    &&& ordered_by(count, cards)
    &&& same_order_within_values(cards, hand)
}

/// A histogram without an entry about a value lists the count 0 for it.
proof fn lemma_listed_count_absent(histogram: Seq<(CardValue, usize)>, value: CardValue)
    requires
        !holds_value(histogram, value),
    ensures
        listed_count(histogram, value) == 0,
    decreases histogram.len(),
{
    if histogram.len() > 0 {
        let rest = histogram.drop_first();
        assert(histogram[0].0 != value);
        assert forall|k: int| 0 <= k < rest.len() implies (#[trigger] rest[k]).0 != value by {
            assert(rest[k] == histogram[k + 1]);
        }
        lemma_listed_count_absent(rest, value);
    }
}

/// A histogram lists for a value the count of its first entry about it.
proof fn lemma_listed_count_at(histogram: Seq<(CardValue, usize)>, value: CardValue, k: int)
    requires
        0 <= k < histogram.len(),
        histogram[k].0 == value,
        forall|m: int| 0 <= m < k ==> (#[trigger] histogram[m]).0 != value,
    ensures
        listed_count(histogram, value) == histogram[k].1,
    decreases k,
{
    if k > 0 {
        let rest = histogram.drop_first();
        assert(histogram[0].0 != value);
        assert(rest[k - 1] == histogram[k]);
        assert forall|m: int| 0 <= m < k - 1 implies (#[trigger] rest[m]).0 != value by {
            assert(rest[m] == histogram[m + 1]);
        }
        lemma_listed_count_at(rest, value, k - 1);
    }
}

/// The histogram of a hand lists for every value the number of cards in the
/// hand that have it.
pub proof fn lemma_histogram_lists_counts(histogram: Seq<(CardValue, usize)>, hand: Seq<Card>)
    requires
        is_histogram(histogram, hand),
    ensures
        histogram_counts(histogram) == hand_counts(hand),
{
    assert forall|value: CardValue|
        listed_count(histogram, value) == #[trigger] count_value(hand, value) by {
        if holds_value(histogram, value) {
            let k = choose|k: int| 0 <= k < histogram.len() && (#[trigger] histogram[k]).0 == value;
            assert forall|m: int| 0 <= m < k implies (#[trigger] histogram[m]).0 != value by {
                assert(entry_precedes(histogram[m], histogram[k]));
            }
            lemma_listed_count_at(histogram, value, k);
        } else {
            lemma_listed_count_absent(histogram, value);
        }
    }
    assert(histogram_counts(histogram) =~= hand_counts(hand));
}

/// Where no card passes a test, filtering by it leaves nothing.
proof fn lemma_filter_none(cards: Seq<Card>, pred: spec_fn(Card) -> bool)
    requires
        forall|k: int| 0 <= k < cards.len() ==> !pred(#[trigger] cards[k]),
    ensures
        cards.filter(pred) == Seq::<Card>::empty(),
{
    let kept = cards.filter(pred);
    if kept.len() > 0 {
        cards.lemma_filter_pred(pred, 0);
        assert(kept.contains(kept[0]));
        cards.lemma_filter_contains_rev(pred, kept[0]);
        let k = choose|k: int| 0 <= k < cards.len() && cards[k] == kept[0];
        assert(!pred(cards[k]));
    }
    assert(kept =~= Seq::<Card>::empty());
}

/// Putting a card in at a place behind which no card has its value adds it at
/// the end of the cards of its value, and changes nothing for other values.
proof fn lemma_filter_after_insert(before: Seq<Card>, place: int, card: Card, value: CardValue)
    requires
        0 <= place <= before.len(),
        forall|k: int| place <= k < before.len() ==> (#[trigger] before[k]).value != card.value,
    ensures
        before.insert(place, card).filter(has_value(value)) == if card.value == value {
            before.filter(has_value(value)).push(card)
        } else {
            before.filter(has_value(value))
        },
{
    let pred = has_value(value);
    let front = before.take(place);
    let back = before.skip(place);
    assert(before =~= front + back);
    assert(before.insert(place, card) =~= front.push(card) + back);
    Seq::filter_distributes_over_add(front, back, pred);
    Seq::filter_distributes_over_add(front.push(card), back, pred);
    front.lemma_filter_push(card, pred);
    if card.value == value {
        assert forall|k: int| 0 <= k < back.len() implies !pred(#[trigger] back[k]) by {
            assert(back[k] == before[place + k]);
        }
        lemma_filter_none(back, pred);
        assert(front.filter(pred).push(card) + Seq::<Card>::empty() =~= (front.filter(pred)
            + Seq::<Card>::empty()).push(card));
    }
}

/// Two arrangements of the same cards that are both ordered by the same
/// counts, and in which the cards of each value stand in the same order, are
/// the same arrangement.
proof fn lemma_same_arrangement(count: spec_fn(CardValue) -> nat, a: Seq<Card>, b: Seq<Card>)
    requires
        a.to_multiset() == b.to_multiset(),
        ordered_by(count, a),
        ordered_by(count, b),
        same_order_within_values(a, b),
    ensures
        a == b,
    decreases a.len(),
{
    to_multiset_len(a);
    to_multiset_len(b);
    if a.len() == 0 {
        assert(a =~= b);
    } else {
        let x = a.last();
        let y = b.last();
        let a_rest = a.drop_last();
        let b_rest = b.drop_last();
        assert(a =~= a_rest.push(x));
        assert(b =~= b_rest.push(y));
        // each last card occurs in the other arrangement, so neither belongs
        // strictly before the other
        assert(b.contains(y));
        to_multiset_contains(b, y);
        to_multiset_contains(a, y);
        let i = choose|i: int| 0 <= i < a.len() && a[i] == y;
        assert(!card_precedes(count, x, y)) by {
            if i < a.len() - 1 {
                assert(!card_precedes(count, a[a.len() - 1], a[i]));
            }
        }
        assert(a.contains(x));
        to_multiset_contains(a, x);
        to_multiset_contains(b, x);
        let j = choose|j: int| 0 <= j < b.len() && b[j] == x;
        assert(!card_precedes(count, y, x)) by {
            if j < b.len() - 1 {
                assert(!card_precedes(count, b[b.len() - 1], b[j]));
            }
        }
        x.value.lemma_ordinal_injective(y.value);
        assert(x.value == y.value);
        // so both are the last card of that value
        let pred = has_value(x.value);
        a_rest.lemma_filter_push(x, pred);
        b_rest.lemma_filter_push(y, pred);
        assert(a.filter(pred) == b.filter(pred));
        assert(a_rest.filter(pred).push(x).last() == x);
        assert(b_rest.filter(pred).push(y).last() == y);
        assert(x == y);
        // and what stands before them is again two such arrangements
        to_multiset_build(a_rest, x);
        to_multiset_build(b_rest, y);
        assert(a_rest.to_multiset() =~= b_rest.to_multiset()) by {
            assert forall|card: Card|
                a_rest.to_multiset().count(card) == b_rest.to_multiset().count(card) by {
                assert(a_rest.to_multiset().insert(x).count(card) == b_rest.to_multiset().insert(
                    x,
                ).count(card));
            }
        }
        assert forall|p: int, q: int| 0 <= p < q < a_rest.len() implies !card_precedes(
            count,
            #[trigger] a_rest[q],
            #[trigger] a_rest[p],
        ) by {
            assert(a_rest[p] == a[p] && a_rest[q] == a[q]);
        }
        assert forall|p: int, q: int| 0 <= p < q < b_rest.len() implies !card_precedes(
            count,
            #[trigger] b_rest[q],
            #[trigger] b_rest[p],
        ) by {
            assert(b_rest[p] == b[p] && b_rest[q] == b[q]);
        }
        assert forall|value: CardValue| #[trigger]
            a_rest.filter(has_value(value)) == b_rest.filter(has_value(value)) by {
            let each = has_value(value);
            a_rest.lemma_filter_push(x, each);
            b_rest.lemma_filter_push(y, each);
            assert(a.filter(each) == b.filter(each));
            if value == x.value {
                assert(a_rest.filter(each) =~= a_rest.filter(each).push(x).drop_last());
                assert(b_rest.filter(each) =~= b_rest.filter(each).push(y).drop_last());
            }
        }
        lemma_same_arrangement(count, a_rest, b_rest);
    }
}

/// A hand has one canonical order under given counts and no other.
pub proof fn lemma_canonical_order_unique(
    count: spec_fn(CardValue) -> nat,
    first: Seq<Card>,
    second: Seq<Card>,
    hand: Seq<Card>,
)
    requires
        is_canonical_order(count, first, hand),
        is_canonical_order(count, second, hand),
    ensures
        first == second,
{
    assert forall|value: CardValue| #[trigger]
        first.filter(has_value(value)) == second.filter(has_value(value)) by {
        assert(first.filter(has_value(value)) == hand.filter(has_value(value)));
        assert(second.filter(has_value(value)) == hand.filter(has_value(value)));
    }
    lemma_same_arrangement(count, first, second);
}

/// In a hand in canonical order under its own counts, the cards of one value
/// stand side by side: a card between two cards of one value has that value
/// too.
pub proof fn lemma_equal_values_adjacent(cards: Seq<Card>, hand: Seq<Card>, i: int, j: int, k: int)
    requires
        is_canonical_order(hand_counts(hand), cards, hand),
        0 <= i <= j <= k < cards.len(),
        cards[i].value == cards[k].value,
    ensures
        cards[j].value == cards[i].value,
{
    let count = hand_counts(hand);
    if i < j {
        assert(!card_precedes(count, cards[j], cards[i]));
    }
    if j < k {
        assert(!card_precedes(count, cards[k], cards[j]));
    }
    cards[j].value.lemma_ordinal_injective(cards[i].value);
}

/// The count that `histogram` lists for `value`.
fn count_listed_for(histogram: &[(CardValue, usize)], value: CardValue) -> (count: usize)
    ensures
        count == listed_count(histogram@, value),
{
    let mut k: usize = 0;
    assert(histogram@.skip(0) =~= histogram@);
    while k < histogram.len()
        invariant
            k <= histogram@.len(),
            listed_count(histogram@, value) == listed_count(histogram@.skip(k as int), value),
        decreases histogram@.len() - k,
    {
        proof {
            let rest = histogram@.skip(k as int);
            assert(rest[0] == histogram@[k as int]);
            assert(rest.drop_first() =~= histogram@.skip(k + 1));
        }
        if histogram[k].0 == value {
            return histogram[k].1;
        }
        k = k + 1;
    }
    0
}

/// Whether a value with the count `count_a` goes before another with the count
/// `count_b`.
fn key_goes_before(count_a: usize, value_a: CardValue, count_b: usize, value_b: CardValue) -> (before:
    bool)
    ensures
        before == key_precedes(count_a as int, value_a, count_b as int, value_b),
{
    count_a > count_b || (count_a == count_b && value_a.ordinal() > value_b.ordinal())
}

/// Puts the cards of a hand into canonical order: by the count that
/// `histogram` lists for their value, descending, and cards with the same
/// count by value, descending. Cards of the same value keep the order in
/// which they stand in `hand`.
pub fn canonical_order(hand: &[Card], histogram: &[(CardValue, usize)]) -> (cards: Vec<Card>)
    ensures
        is_canonical_order(histogram_counts(histogram@), cards@, hand@),
        cards@.len() == hand@.len(),
{
    let ghost count = histogram_counts(histogram@);
    let mut cards: Vec<Card> = Vec::new();
    let mut i: usize = 0;
    assert(hand@.take(0) =~= Seq::<Card>::empty());
    assert(cards@ =~= hand@.take(0));
    while i < hand.len()
        invariant
            i <= hand@.len(),
            count == histogram_counts(histogram@),
            is_canonical_order(count, cards@, hand@.take(i as int)),
        decreases hand@.len() - i,
    {
        let card = hand[i];
        let count_here: usize = count_listed_for(histogram, card.value);
        let mut place: usize = 0;
        while place < cards.len() && !key_goes_before(
            count_here,
            card.value,
            count_listed_for(histogram, cards[place].value),
            cards[place].value,
        )
            invariant
                place <= cards@.len(),
                count == histogram_counts(histogram@),
                count_here == count(card.value),
                forall|k: int| 0 <= k < place ==> !card_precedes(count, card, #[trigger] cards@[k]),
            decreases cards@.len() - place,
        {
            place = place + 1;
        }
        let ghost before = cards@;
        let ghost seen = hand@.take(i as int);
        proof {
            assert forall|k: int| place <= k < before.len() implies card_precedes(
                count,
                card,
                #[trigger] before[k],
            ) by {
                if place < k {
                    assert(!card_precedes(count, before[k], before[place as int]));
                }
            }
        }
        cards.insert(place, card);
        proof {
            let after = cards@;
            assert(hand@.take(i + 1) =~= seen.push(card));
            to_multiset_insert(before, place as int, card);
            to_multiset_build(seen, card);
            assert forall|p: int, q: int| 0 <= p < q < after.len() implies !card_precedes(
                count,
                #[trigger] after[q],
                #[trigger] after[p],
            ) by {
                card.value.lemma_ordinal_injective(after[p].value);
                card.value.lemma_ordinal_injective(after[q].value);
                if q < place {
                    assert(after[p] == before[p] && after[q] == before[q]);
                } else if q == place {
                    assert(after[p] == before[p] && after[q] == card);
                } else if p < place {
                    assert(after[p] == before[p] && after[q] == before[q - 1]);
                } else if p == place {
                    assert(after[p] == card && after[q] == before[q - 1]);
                } else {
                    assert(after[p] == before[p - 1] && after[q] == before[q - 1]);
                }
            }
            assert forall|value: CardValue| #[trigger]
                after.filter(has_value(value)) == seen.push(card).filter(has_value(value)) by {
                assert forall|k: int| place <= k < before.len() implies (
                #[trigger] before[k]).value != card.value by {
                    assert(card_precedes(count, card, before[k]));
                }
                lemma_filter_after_insert(before, place as int, card, value);
                seen.lemma_filter_push(card, has_value(value));
                assert(before.filter(has_value(value)) == seen.filter(has_value(value)));
            }
        }
        i = i + 1;
    }
    proof {
        assert(hand@.take(hand@.len() as int) =~= hand@);
        to_multiset_len(cards@);
        to_multiset_len(hand@);
    }
    cards
}

} // verus!
