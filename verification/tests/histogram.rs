use poker_hands::{
    canonical_order, get_card_value_histogram, parse_hand, split_tokens, Card, CardValue, Suits,
};

fn cards_of(text: &str) -> Vec<Card> {
    parse_hand(&split_tokens(text)).unwrap()
}

const SAMPLE_HANDS: [&str; 12] = [
    "8C TS KC 9H 4S",
    "5C AD 5D AC 9C",
    "2H 3H 4H 5H 6H",
    "AS AD AC AH KS",
    "4S 4D 9C 9H 2C",
    "3C 3D KS KH 3S",
    "7D 7S 7H 2C 9D",
    "2C 5C 7C JC KC",
    "QH 3S QD 8C 6H",
    "TS JD QC KH AS",
    "AS 2D 3C 4H 5S",
    "2S 2H 2D 2C 3S",
];

#[test]
fn five_different_values_give_five_entries() {
    assert_eq!(
        get_card_value_histogram(&cards_of("8C TS KC 9H 4S")),
        vec![
            (CardValue::King, 1),
            (CardValue::Ten, 1),
            (CardValue::Nine, 1),
            (CardValue::Eight, 1),
            (CardValue::Four, 1),
        ]
    );
}

#[test]
fn equal_counts_are_listed_from_the_highest_value_down() {
    assert_eq!(
        get_card_value_histogram(&cards_of("5C AD 5D AC 9C")),
        vec![(CardValue::Ace, 2), (CardValue::Five, 2), (CardValue::Nine, 1)]
    );
    assert_eq!(
        get_card_value_histogram(&cards_of("4S 4D 9C 9H 2C")),
        vec![(CardValue::Nine, 2), (CardValue::Four, 2), (CardValue::Two, 1)]
    );
}

#[test]
fn larger_counts_are_listed_first() {
    assert_eq!(
        get_card_value_histogram(&cards_of("3C 3D KS KH 3S")),
        vec![(CardValue::Three, 3), (CardValue::King, 2)]
    );
    assert_eq!(
        get_card_value_histogram(&cards_of("AS AD AC AH KS")),
        vec![(CardValue::Ace, 4), (CardValue::King, 1)]
    );
    assert_eq!(
        get_card_value_histogram(&cards_of("KS 2D 2C 2H 2S")),
        vec![(CardValue::Two, 4), (CardValue::King, 1)]
    );
    assert_eq!(
        get_card_value_histogram(&cards_of("QH 3S QD 8C 6H")),
        vec![
            (CardValue::Queen, 2),
            (CardValue::Eight, 1),
            (CardValue::Six, 1),
            (CardValue::Three, 1),
        ]
    );
}

#[test]
fn a_histogram_can_be_built_of_any_number_of_cards() {
    assert_eq!(get_card_value_histogram(&[]), vec![]);
    let ace = Card { value: CardValue::Ace, suit: Suits::Spades };
    let two = Card { value: CardValue::Two, suit: Suits::Hearts };
    let jack = Card { value: CardValue::Jack, suit: Suits::Clubs };
    assert_eq!(get_card_value_histogram(&[two]), vec![(CardValue::Two, 1)]);
    assert_eq!(
        get_card_value_histogram(&[two, ace, jack, two, ace, two, two]),
        vec![(CardValue::Two, 4), (CardValue::Ace, 2), (CardValue::Jack, 1)]
    );
    assert_eq!(
        get_card_value_histogram(&[ace, ace, ace, ace, ace]),
        vec![(CardValue::Ace, 5)]
    );
}

#[test]
fn counts_add_up_to_the_number_of_cards() {
    for text in SAMPLE_HANDS {
        let cards = cards_of(text);
        let histogram = get_card_value_histogram(&cards);
        let total: usize = histogram.iter().map(|entry| entry.1).sum();
        assert_eq!(total, 5);
        for (value, count) in &histogram {
            assert!(1 <= *count && *count <= 5);
            assert_eq!(
                cards.iter().filter(|card| card.value == *value).count(),
                *count
            );
        }
        for card in &cards {
            assert_eq!(
                histogram.iter().filter(|entry| entry.0 == card.value).count(),
                1
            );
        }
    }
}

#[test]
fn entries_are_strictly_ordered() {
    for text in SAMPLE_HANDS {
        let histogram = get_card_value_histogram(&cards_of(text));
        for pair in histogram.windows(2) {
            let (earlier, later) = (pair[0], pair[1]);
            assert!(
                earlier.1 > later.1
                    || (earlier.1 == later.1 && earlier.0.ordinal() > later.0.ordinal())
            );
        }
    }
}

#[test]
fn the_histogram_does_not_depend_on_the_order_of_the_cards() {
    let forwards = cards_of("5C AD 5D AC 9C");
    let mut backwards = forwards.clone();
    backwards.reverse();
    assert_eq!(
        get_card_value_histogram(&forwards),
        get_card_value_histogram(&backwards)
    );
}

#[test]
fn canonical_order_puts_groups_first() {
    let hand = cards_of("5C AD 5D AC 9C");
    let histogram = get_card_value_histogram(&hand);
    assert_eq!(canonical_order(&hand, &histogram), cards_of("AD AC 5C 5D 9C"));
    let hand = cards_of("KS 2D 2C 2H 2S");
    let histogram = get_card_value_histogram(&hand);
    assert_eq!(canonical_order(&hand, &histogram), cards_of("2D 2C 2H 2S KS"));
    let hand = cards_of("KS 3C 3D KH 3S");
    let histogram = get_card_value_histogram(&hand);
    assert_eq!(canonical_order(&hand, &histogram), cards_of("3C 3D 3S KS KH"));
    let hand = cards_of("2C 7D 9S 7S 7H");
    let histogram = get_card_value_histogram(&hand);
    assert_eq!(canonical_order(&hand, &histogram), cards_of("7D 7S 7H 9S 2C"));
    let hand = cards_of("3S QH 6H QD 8C");
    let histogram = get_card_value_histogram(&hand);
    assert_eq!(canonical_order(&hand, &histogram), cards_of("QH QD 8C 6H 3S"));
}

#[test]
fn canonical_order_lists_single_cards_from_the_highest_down() {
    let hand = cards_of("8C TS KC 9H 4S");
    let histogram = get_card_value_histogram(&hand);
    assert_eq!(canonical_order(&hand, &histogram), cards_of("KC TS 9H 8C 4S"));
    let hand = cards_of("AS 2D 3C 4H 5S");
    let histogram = get_card_value_histogram(&hand);
    assert_eq!(canonical_order(&hand, &histogram), cards_of("AS 5S 4H 3C 2D"));
}

#[test]
fn cards_of_one_value_keep_their_order() {
    let hand = cards_of("4S 4D 9C 9H 2C");
    let histogram = get_card_value_histogram(&hand);
    assert_eq!(canonical_order(&hand, &histogram), cards_of("9C 9H 4S 4D 2C"));
    let hand = cards_of("4D 9H 2C 9C 4S");
    let histogram = get_card_value_histogram(&hand);
    assert_eq!(canonical_order(&hand, &histogram), cards_of("9H 9C 4D 4S 2C"));
}

#[test]
fn canonical_order_only_rearranges() {
    for text in SAMPLE_HANDS {
        let hand = cards_of(text);
        let histogram = get_card_value_histogram(&hand);
        let mut ordered = canonical_order(&hand, &histogram);
        assert_eq!(ordered.len(), hand.len());
        let mut unordered = hand.clone();
        unordered.sort();
        ordered.sort();
        assert_eq!(ordered, unordered);
    }
}

#[test]
fn canonical_order_of_an_ordered_hand_is_the_hand() {
    for text in SAMPLE_HANDS {
        let hand = cards_of(text);
        let histogram = get_card_value_histogram(&hand);
        let once = canonical_order(&hand, &histogram);
        let twice = canonical_order(&once, &histogram);
        assert_eq!(once, twice);
    }
}

#[test]
fn canonical_order_goes_by_the_counts_it_is_given() {
    let hand = cards_of("4S 4D 9C 9H 2C");
    assert_eq!(canonical_order(&hand, &[]), cards_of("9C 9H 4S 4D 2C"));
    assert_eq!(
        canonical_order(&hand, &[(CardValue::Two, 3), (CardValue::Four, 2)]),
        cards_of("2C 4S 4D 9C 9H")
    );
    assert_eq!(
        canonical_order(&hand, &[(CardValue::Four, 1), (CardValue::Four, 7), (CardValue::Nine, 1)]),
        cards_of("9C 9H 4S 4D 2C")
    );
    assert_eq!(canonical_order(&[], &[(CardValue::Two, 3)]), vec![]);
}
