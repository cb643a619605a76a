use poker_hands::{
    break_tie, compare_hands, process_hand, Card, ComparisonResult, Rank,
};

fn evaluated(text: &str) -> (Rank, Vec<Card>) {
    process_hand(text).unwrap()
}

fn outcome(first: &str, second: &str) -> ComparisonResult {
    let (rank_1, cards_1) = evaluated(first);
    let (rank_2, cards_2) = evaluated(second);
    compare_hands(&rank_1, &cards_1, &rank_2, &cards_2)
}

const ONE_OF_EACH: [&str; 9] = [
    "8C TS KC 9H 4S",
    "QH 3S QD 8C 6H",
    "5C AD 5D AC 9C",
    "7D 7S 7H 2C 9D",
    "5S 6D 7C 8H 9S",
    "2C 5C 7C JC KC",
    "3C 3D KS KH 3S",
    "AS AD AC AH KS",
    "2H 3H 4H 5H 6H",
];

#[test]
fn a_hand_ties_with_itself() {
    for text in ONE_OF_EACH {
        assert_eq!(outcome(text, text), ComparisonResult::Tie);
    }
    assert_eq!(outcome("AS 2D 3C 4H 5S", "AS 2D 3C 4H 5S"), ComparisonResult::Tie);
}

#[test]
fn the_stronger_category_wins() {
    for (weaker, low) in ONE_OF_EACH.iter().enumerate() {
        for (stronger, high) in ONE_OF_EACH.iter().enumerate() {
            if weaker < stronger {
                assert_eq!(outcome(high, low), ComparisonResult::Hand1Wins);
                assert_eq!(outcome(low, high), ComparisonResult::Hand2Wins);
            }
        }
    }
}

#[test]
fn the_lowest_straight_flush_beats_the_best_of_every_other_category() {
    let lowest = "2H 3H 4H 5H 6H";
    for best in [
        "AS KD QC JH 9S",
        "AS AD KC QH JS",
        "AS AD KC KH QS",
        "AS AD AC KH QS",
        "AS KD QC JH TS",
        "AS KS QS JS 9S",
        "AS AD AC KH KS",
        "AS AD AC AH KS",
    ] {
        assert_eq!(outcome(lowest, best), ComparisonResult::Hand1Wins);
        assert_eq!(outcome(best, lowest), ComparisonResult::Hand2Wins);
    }
}

#[test]
fn the_category_decides_whatever_cards_are_given() {
    let (_, low_cards) = evaluated("2H 3D 4S 5C 7H");
    let (_, high_cards) = evaluated("AS AD AC AH KS");
    assert_eq!(
        compare_hands(&Rank::StraightFlush, &low_cards, &Rank::FourOfAKind, &high_cards),
        ComparisonResult::Hand1Wins
    );
    assert_eq!(
        compare_hands(&Rank::HighCard, &high_cards, &Rank::OnePair, &low_cards),
        ComparisonResult::Hand2Wins
    );
}

#[test]
fn straights_are_decided_by_their_highest_card() {
    assert_eq!(outcome("5S 6D 7C 8H 9S", "4S 5D 6C 7H 8S"), ComparisonResult::Hand1Wins);
    assert_eq!(outcome("4S 5D 6C 7H 8S", "TS JD QC KH AS"), ComparisonResult::Hand2Wins);
    assert_eq!(outcome("5S 6D 7C 8H 9S", "9D 8C 7H 6S 5D"), ComparisonResult::Tie);
    assert_eq!(outcome("2H 3H 4H 5H 6H", "3C 4C 5C 6C 7C"), ComparisonResult::Hand2Wins);
    assert_eq!(outcome("3D 4D 5D 6D 7D", "3C 4C 5C 6C 7C"), ComparisonResult::Tie);
}

#[test]
fn flushes_are_decided_by_the_first_difference_from_the_top() {
    assert_eq!(outcome("2C 5C 7C JC KC", "2D 5D 7D JD QD"), ComparisonResult::Hand1Wins);
    assert_eq!(outcome("2C 5C 7C JC KC", "2D 5D 7D QD KD"), ComparisonResult::Hand2Wins);
    assert_eq!(outcome("2C 5C 8C JC KC", "2D 5D 7D JD KD"), ComparisonResult::Hand1Wins);
    assert_eq!(outcome("2C 5C 7C JC KC", "2D 6D 7D JD KD"), ComparisonResult::Hand2Wins);
    assert_eq!(outcome("3C 5C 7C JC KC", "2D 5D 7D JD KD"), ComparisonResult::Hand1Wins);
    assert_eq!(outcome("2C 5C 7C JC KC", "2D 5D 7D JD KD"), ComparisonResult::Tie);
}

#[test]
fn high_cards_are_decided_by_the_first_difference_from_the_top() {
    assert_eq!(outcome("8C TS KC 9H 4S", "8D TD QC 9S 4H"), ComparisonResult::Hand1Wins);
    assert_eq!(outcome("8C TS KC 9H 4S", "8D JD KD 9S 4H"), ComparisonResult::Hand2Wins);
    assert_eq!(outcome("8C TS KC 9H 4S", "7D TD KD 9S 4H"), ComparisonResult::Hand1Wins);
    assert_eq!(outcome("8C TS KC 9H 3S", "8D TD KD 9S 4H"), ComparisonResult::Hand2Wins);
    assert_eq!(outcome("8C TS KC 9H 4S", "8D TD KD 9S 4H"), ComparisonResult::Tie);
    assert_eq!(outcome("KS QD 9C 8H 2S", "KD QS 9H 8C 3S"), ComparisonResult::Hand2Wins);
}

#[test]
fn four_three_and_two_of_a_kind_are_decided_by_the_group() {
    assert_eq!(outcome("AS AD AC AH KS", "KD KC KH KS AS"), ComparisonResult::Hand1Wins);
    assert_eq!(outcome("2S 2D 2C 2H KS", "3D 3C 3H 3S 4S"), ComparisonResult::Hand2Wins);
    assert_eq!(outcome("7D 7S 7H 2C 9D", "6D 6S 6H AC KD"), ComparisonResult::Hand1Wins);
    assert_eq!(outcome("7D 7S 7H 2C 9D", "8D 8S 8H 3C 4D"), ComparisonResult::Hand2Wins);
    assert_eq!(outcome("QH 3S QD 8C 6H", "JH AS JD KC TH"), ComparisonResult::Hand1Wins);
    assert_eq!(outcome("QH 3S QD 8C 6H", "KH 2S KD 3C 4H"), ComparisonResult::Hand2Wins);
}

#[test]
fn the_cards_beside_a_group_do_not_decide() {
    assert_eq!(outcome("QH 3S QD 8C 6H", "QS AS QC KC JH"), ComparisonResult::Tie);
    assert_eq!(outcome("7D 7S 7H 2C 9D", "7C 7S 7H AC KD"), ComparisonResult::Tie);
    assert_eq!(outcome("AS AD AC AH 2S", "AS AD AC AH KS"), ComparisonResult::Tie);
}

#[test]
fn full_houses_are_decided_by_the_three_and_then_by_the_pair() {
    assert_eq!(outcome("3C 3D KS KH 3S", "2C 2D AS AH 2S"), ComparisonResult::Hand1Wins);
    assert_eq!(outcome("3C 3D KS KH 3S", "4C 4D 2S 2H 4S"), ComparisonResult::Hand2Wins);
    assert_eq!(outcome("3C 3D KS KH 3S", "3H 3D QS QH 3S"), ComparisonResult::Hand1Wins);
    assert_eq!(outcome("3C 3D KS KH 3S", "3H 3D AS AH 3S"), ComparisonResult::Hand2Wins);
    assert_eq!(outcome("3C 3D KS KH 3S", "KD 3H KC 3S 3D"), ComparisonResult::Tie);
}

#[test]
fn two_pairs_are_decided_by_the_pairs_and_then_by_the_last_card() {
    assert_eq!(outcome("5C AD 5D AC 9C", "KC KD QS QC AH"), ComparisonResult::Hand1Wins);
    assert_eq!(outcome("5C KD 5D KC 9C", "AC AD 2S 2C 3H"), ComparisonResult::Hand2Wins);
    assert_eq!(outcome("5C AD 5D AC 9C", "4C AH 4D AS KC"), ComparisonResult::Hand1Wins);
    assert_eq!(outcome("5C AD 5D AC 9C", "6C AH 6D AS 2C"), ComparisonResult::Hand2Wins);
    assert_eq!(outcome("5C AD 5D AC 9C", "5H AH 5S AS 8C"), ComparisonResult::Hand1Wins);
    assert_eq!(outcome("5C AD 5D AC 9C", "5H AH 5S AS TC"), ComparisonResult::Hand2Wins);
    assert_eq!(outcome("5C AD 5D AC 9C", "5H AH 5S AS 9D"), ComparisonResult::Tie);
}

#[test]
fn exchanging_the_hands_exchanges_the_outcome() {
    let texts = [
        "8C TS KC 9H 4S",
        "8D TD QC 9S 4H",
        "5C AD 5D AC 9C",
        "5H AH 5S AS TC",
        "3C 3D KS KH 3S",
        "3H 3D QS QH 3S",
        "2H 3H 4H 5H 6H",
        "2C 5C 7C JC KC",
    ];
    for first in texts {
        for second in texts {
            let reversed = match outcome(first, second) {
                ComparisonResult::Hand1Wins => ComparisonResult::Hand2Wins,
                ComparisonResult::Hand2Wins => ComparisonResult::Hand1Wins,
                ComparisonResult::Tie => ComparisonResult::Tie,
            };
            assert_eq!(outcome(second, first), reversed);
        }
    }
}

#[test]
fn break_tie_goes_by_the_positions_of_the_category() {
    let (_, first) = evaluated("9C 9H 4S 4D 2C");
    let (_, second) = evaluated("9D 9S 4H 4C 3C");
    assert_eq!(break_tie(&Rank::TwoPairs, &first, &second), ComparisonResult::Hand2Wins);
    assert_eq!(break_tie(&Rank::HighCard, &first, &second), ComparisonResult::Hand2Wins);
    assert_eq!(break_tie(&Rank::Flush, &second, &first), ComparisonResult::Hand1Wins);
    assert_eq!(break_tie(&Rank::OnePair, &first, &second), ComparisonResult::Tie);
    assert_eq!(break_tie(&Rank::ThreeOfAKind, &first, &second), ComparisonResult::Tie);
    assert_eq!(break_tie(&Rank::FourOfAKind, &first, &second), ComparisonResult::Tie);
    assert_eq!(break_tie(&Rank::Straight, &first, &second), ComparisonResult::Tie);
    assert_eq!(break_tie(&Rank::StraightFlush, &first, &second), ComparisonResult::Tie);
    assert_eq!(break_tie(&Rank::FullHouse, &first, &second), ComparisonResult::Tie);
    let (_, third) = evaluated("9D 9S 4H 5C 3C");
    assert_eq!(break_tie(&Rank::FullHouse, &first, &third), ComparisonResult::Tie);
    assert_eq!(break_tie(&Rank::TwoPairs, &first, &third), ComparisonResult::Hand2Wins);
    assert_eq!(break_tie(&Rank::TwoPairs, &third, &first), ComparisonResult::Hand1Wins);
    let (_, fourth) = evaluated("9D 9S 5H 3C 3S");
    assert_eq!(break_tie(&Rank::FullHouse, &first, &fourth), ComparisonResult::Hand1Wins);
    assert_eq!(break_tie(&Rank::OnePair, &first, &fourth), ComparisonResult::Tie);
}

#[test]
fn evaluating_again_gives_the_same() {
    for text in ONE_OF_EACH {
        assert_eq!(process_hand(text), process_hand(text));
    }
    assert_eq!(process_hand("1X 2H 3H 4H 5H"), process_hand("1X 2H 3H 4H 5H"));
    assert_eq!(process_hand("2H 3H"), process_hand("2H 3H"));
}

#[test]
fn an_evaluation_holds_the_cards_of_the_hand() {
    for text in ONE_OF_EACH {
        let (_, cards) = evaluated(text);
        let mut ordered = cards.clone();
        ordered.sort();
        let mut expected: Vec<Card> = text
            .split(' ')
            .map(|token| poker_hands::parse_card(token).unwrap())
            .collect();
        expected.sort();
        assert_eq!(ordered, expected);
    }
}
