use poker_hands::{
    check_flush, check_straight, get_card_value_histogram, parse_hand, process_hand, rank_hand,
    split_tokens, Card, CardValue, Rank,
};

fn cards_of(text: &str) -> Vec<Card> {
    parse_hand(&split_tokens(text)).unwrap()
}

fn rank_of(text: &str) -> Rank {
    let hand = cards_of(text);
    let histogram = get_card_value_histogram(&hand);
    rank_hand(&histogram, &hand)
}

#[test]
fn every_category_is_recognized() {
    assert_eq!(rank_of("8C TS KC 9H 4S"), Rank::HighCard);
    assert_eq!(rank_of("QH 3S QD 8C 6H"), Rank::OnePair);
    assert_eq!(rank_of("5C AD 5D AC 9C"), Rank::TwoPairs);
    assert_eq!(rank_of("7D 7S 7H 2C 9D"), Rank::ThreeOfAKind);
    assert_eq!(rank_of("5S 6D 7C 8H 9S"), Rank::Straight);
    assert_eq!(rank_of("2C 5C 7C JC KC"), Rank::Flush);
    assert_eq!(rank_of("3C 3D KS KH 3S"), Rank::FullHouse);
    assert_eq!(rank_of("AS AD AC AH KS"), Rank::FourOfAKind);
    assert_eq!(rank_of("2H 3H 4H 5H 6H"), Rank::StraightFlush);
}

#[test]
fn the_category_does_not_depend_on_the_order_of_the_cards() {
    assert_eq!(rank_of("9S 5S 8H 6D 7C"), Rank::Straight);
    assert_eq!(rank_of("KS 3C 3D KH 3S"), Rank::FullHouse);
    assert_eq!(rank_of("KS AD AC AH AS"), Rank::FourOfAKind);
    assert_eq!(rank_of("6H 2H 5H 3H 4H"), Rank::StraightFlush);
    assert_eq!(rank_of("9C 4S 4D 2C 9H"), Rank::TwoPairs);
    for text in ["9S 5S 8H 6D 7C", "KS 3C 3D KH 3S", "9C 4S 4D 2C 9H", "8C TS KC 9H 4S"] {
        let (rank, cards) = process_hand(text).unwrap();
        assert_eq!(rank, rank_of(text));
        let histogram = get_card_value_histogram(&cards);
        assert_eq!(rank_hand(&histogram, &cards), rank);
    }
}

#[test]
fn a_flush_is_five_cards_of_one_suit() {
    assert!(check_flush(&cards_of("2C 5C 7C JC KC")));
    assert!(check_flush(&cards_of("2H 3H 4H 5H 6H")));
    assert!(check_flush(&cards_of("AS KS QS JS TS")));
    assert!(check_flush(&cards_of("AD 2D 9D 4D 8D")));
    assert!(!check_flush(&cards_of("2C 5C 7C JC KS")));
    assert!(!check_flush(&cards_of("2S 5C 7C JC KC")));
    assert!(!check_flush(&cards_of("2C 5C 7H JC KC")));
    assert!(!check_flush(&cards_of("AS AD AC AH KS")));
}

#[test]
fn a_straight_is_five_values_in_a_row() {
    assert!(check_straight(&cards_of("2H 3D 4S 5C 6H")));
    assert!(check_straight(&cards_of("6H 2H 5D 3S 4C")));
    assert!(check_straight(&cards_of("TS JD QC KH AS")));
    assert!(check_straight(&cards_of("AS KH QC JD TS")));
    assert!(check_straight(&cards_of("9S 5S 8H 6D 7C")));
    assert!(!check_straight(&cards_of("2H 3D 4S 5C 7H")));
    assert!(!check_straight(&cards_of("2H 3D 4S 5C 5H")));
    assert!(!check_straight(&cards_of("2H 2D 3S 4C 5H")));
    assert!(!check_straight(&cards_of("8C TS KC 9H 4S")));
    assert!(!check_straight(&cards_of("2H 4D 6S 8C TH")));
    assert!(!check_straight(&cards_of("3H 3D 3S 3C 3H")));
}

#[test]
fn an_ace_is_high_only() {
    assert!(!check_straight(&cards_of("AS 2D 3C 4H 5S")));
    assert_eq!(rank_of("AS 2D 3C 4H 5S"), Rank::HighCard);
    assert_eq!(rank_of("AS 2S 3S 4S 5S"), Rank::Flush);
    assert!(!check_straight(&cards_of("QS KD AC 2H 3S")));
    assert!(!check_straight(&cards_of("KD AC 2H 3S 4S")));
    assert_eq!(rank_of("TS JD QC KH AS"), Rank::Straight);
    assert_eq!(rank_of("TS JS QS KS AS"), Rank::StraightFlush);
}

#[test]
fn flush_and_straight_come_before_the_groups() {
    assert_eq!(rank_of("2H 2H 3H 3H 3H"), Rank::Flush);
    assert_eq!(rank_of("9D 9D 9D 9D KD"), Rank::Flush);
    assert_eq!(rank_of("4C 4C 8C JC KC"), Rank::Flush);
}

#[test]
fn every_distribution_of_five_cards_has_a_category() {
    assert_eq!(rank_of("AS AH AD AC AS"), Rank::HighCard);
    assert_eq!(rank_of("AS AS AS AS AS"), Rank::Flush);
    assert_eq!(rank_of("2S 2H 2D 2C 3S"), Rank::FourOfAKind);
    assert_eq!(rank_of("2S 2H 2D 3C 3S"), Rank::FullHouse);
    assert_eq!(rank_of("2S 2H 2D 3C 4S"), Rank::ThreeOfAKind);
    assert_eq!(rank_of("2S 2H 3D 3C 4S"), Rank::TwoPairs);
    assert_eq!(rank_of("2S 2H 3D 4C 5S"), Rank::OnePair);
    assert_eq!(rank_of("2S 9H 3D 4C 5S"), Rank::HighCard);
}

#[test]
fn a_plain_hand_goes_by_the_head_of_the_histogram() {
    let hand = cards_of("8C TS KC 9H 4S");
    assert_eq!(rank_hand(&[], &hand), Rank::HighCard);
    assert_eq!(rank_hand(&[(CardValue::Two, 1)], &hand), Rank::HighCard);
    assert_eq!(rank_hand(&[(CardValue::Two, 5)], &hand), Rank::HighCard);
    assert_eq!(rank_hand(&[(CardValue::Two, 2)], &hand), Rank::OnePair);
    assert_eq!(
        rank_hand(&[(CardValue::Two, 2), (CardValue::Six, 1), (CardValue::Ten, 2)], &hand),
        Rank::OnePair
    );
    assert_eq!(
        rank_hand(&[(CardValue::Two, 2), (CardValue::Six, 2)], &hand),
        Rank::TwoPairs
    );
    assert_eq!(rank_hand(&[(CardValue::Two, 3)], &hand), Rank::ThreeOfAKind);
    assert_eq!(
        rank_hand(&[(CardValue::Two, 3), (CardValue::Six, 1)], &hand),
        Rank::ThreeOfAKind
    );
    assert_eq!(
        rank_hand(&[(CardValue::Two, 3), (CardValue::Six, 2)], &hand),
        Rank::FullHouse
    );
    assert_eq!(
        rank_hand(&[(CardValue::Two, 4), (CardValue::Six, 2)], &hand),
        Rank::FourOfAKind
    );
    let flush = cards_of("2C 5C 7C JC KC");
    assert_eq!(rank_hand(&[(CardValue::Two, 4)], &flush), Rank::Flush);
    let straight = cards_of("5S 6D 7C 8H 9S");
    assert_eq!(rank_hand(&[(CardValue::Two, 4)], &straight), Rank::Straight);
}

#[test]
fn categories_are_ordered_from_high_card_to_straight_flush() {
    let ordered = [
        Rank::HighCard,
        Rank::OnePair,
        Rank::TwoPairs,
        Rank::ThreeOfAKind,
        Rank::Straight,
        Rank::Flush,
        Rank::FullHouse,
        Rank::FourOfAKind,
        Rank::StraightFlush,
    ];
    let expected: [u8; 9] = [0, 1, 2, 3, 4, 5, 6, 7, 8];
    for (index, rank) in ordered.iter().enumerate() {
        assert_eq!(rank.strength(), expected[index]);
    }
    for low in ordered {
        for high in ordered {
            assert_eq!(low < high, low.strength() < high.strength());
        }
    }
}
