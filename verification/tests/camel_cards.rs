use aoc2023::camel_cards::{
    count_card, count_kinds, is_weaker, part_1, part_2, process_hands, rank_hands, read_entry,
    remove_card, total_winnings, type_value_of, value_of, Hand, HandError,
};

const HANDS: &str = "32T3K 765\nT55J5 684\nKK677 28\nKTJJT 220\nQQQJA 483\n";

fn chars(s: &str) -> Vec<char> {
    s.chars().collect()
}

#[test]
fn winnings_of_the_sample() {
    assert_eq!(part_1(HANDS), Ok(String::from("6440")));
}

#[test]
fn winnings_of_the_sample_with_jokers() {
    assert_eq!(part_2(HANDS), Ok(String::from("5905")));
}

#[test]
fn card_values_without_and_with_jokers() {
    assert_eq!(value_of('2', false), Some(2));
    assert_eq!(value_of('9', false), Some(9));
    assert_eq!(value_of('0', false), Some(0));
    assert_eq!(value_of('T', false), Some(10));
    assert_eq!(value_of('J', false), Some(11));
    assert_eq!(value_of('J', true), Some(1));
    assert_eq!(value_of('Q', true), Some(12));
    assert_eq!(value_of('K', false), Some(13));
    assert_eq!(value_of('A', false), Some(14));
    assert_eq!(value_of('B', false), None);
    assert_eq!(value_of('j', true), None);
    assert_eq!(value_of('\u{b2}', false), None);
}

#[test]
fn hands_have_their_types() {
    let type_of = |s: &str| Hand::from_str(s, false).map(|h| h.type_value);
    assert_eq!(type_of("23456"), Ok(0));
    assert_eq!(type_of("A23A4"), Ok(1));
    assert_eq!(type_of("23432"), Ok(2));
    assert_eq!(type_of("TTT98"), Ok(3));
    assert_eq!(type_of("23332"), Ok(4));
    assert_eq!(type_of("AA8AA"), Ok(5));
    assert_eq!(type_of("AAAAA"), Ok(6));
    assert_eq!(type_of("JJJJJ"), Ok(6));
}

#[test]
fn jokers_join_the_most_frequent_card() {
    let type_of = |s: &str| Hand::from_str(s, true).map(|h| h.type_value);
    assert_eq!(type_of("32T3K"), Ok(1));
    assert_eq!(type_of("T55J5"), Ok(5));
    assert_eq!(type_of("KTJJT"), Ok(5));
    assert_eq!(type_of("QQQJA"), Ok(5));
    assert_eq!(type_of("KK677"), Ok(2));
    assert_eq!(type_of("2345J"), Ok(1));
    assert_eq!(type_of("2233J"), Ok(4));
    assert_eq!(type_of("JJJJ2"), Ok(6));
    assert_eq!(type_of("JJJJJ"), Ok(6));
    assert_eq!(type_of("234JJ"), Ok(3));
}

#[test]
fn hand_keeps_the_values_of_its_cards() {
    assert_eq!(Hand::from_str("32T3K", false).unwrap().card_values, [3, 2, 10, 3, 13]);
    assert_eq!(Hand::from_str("QJA09", false).unwrap().card_values, [12, 11, 14, 0, 9]);
    assert_eq!(Hand::from_str("QJA09", true).unwrap().card_values, [12, 1, 14, 0, 9]);
    assert_eq!(Hand::from_str("AA", false).unwrap().card_values, [14, 14, 0, 0, 0]);
}

#[test]
fn short_hands_have_a_type_only_by_chance() {
    let type_of = |s: &str, j: bool| Hand::from_str(s, j).map(|h| h.type_value);
    assert_eq!(type_of("", false), Err(HandError::NoCards));
    assert_eq!(type_of("A", false), Ok(6));
    assert_eq!(type_of("AAA", false), Ok(6));
    assert_eq!(type_of("AK", false), Err(HandError::Incomplete));
    assert_eq!(type_of("AKQ", false), Err(HandError::Incomplete));
    assert_eq!(type_of("AAK", false), Err(HandError::Incomplete));
    assert_eq!(type_of("AAAK", false), Ok(4));
    assert_eq!(type_of("AKQT", false), Ok(1));
    assert_eq!(type_of("JJ", true), Err(HandError::NoCards));
    assert_eq!(type_of("AKJ", true), Err(HandError::Incomplete));
    assert_eq!(type_of("AKQJJ", true), Ok(3));
}

#[test]
fn bad_and_surplus_cards_are_told_apart() {
    let error_of = |s: &str| Hand::from_str(s, false).map(|h| h.type_value);
    assert_eq!(error_of("2345X"), Err(HandError::BadCard));
    assert_eq!(error_of("X"), Err(HandError::BadCard));
    assert_eq!(error_of("23456X"), Err(HandError::BadCard));
    assert_eq!(error_of("234567"), Err(HandError::TooManyCards));
    assert_eq!(error_of("234567X"), Err(HandError::TooManyCards));
    assert_eq!(error_of("2345\u{b2}"), Err(HandError::BadCard));
}

#[test]
fn counting_helpers() {
    let cards = chars("KTJJT");
    assert_eq!(count_card(&cards, 5, 'J'), 2);
    assert_eq!(count_card(&cards, 3, 'J'), 1);
    assert_eq!(count_card(&cards, 0, 'K'), 0);
    assert_eq!(remove_card(&cards, 'J'), chars("KTT"));
    assert_eq!(remove_card(&cards, 'A'), cards);
    assert_eq!(count_kinds(&cards), (3, 2));
    assert_eq!(count_kinds(&chars("AAAAA")), (1, 5));
    assert_eq!(count_kinds(&chars("")), (0, 0));
    assert_eq!(count_kinds(&chars("23456")), (5, 1));
}

#[test]
fn types_by_kinds_and_top_count() {
    assert_eq!(type_value_of(5, 1), Ok(0));
    assert_eq!(type_value_of(4, 2), Ok(1));
    assert_eq!(type_value_of(3, 2), Ok(2));
    assert_eq!(type_value_of(3, 3), Ok(3));
    assert_eq!(type_value_of(2, 3), Ok(4));
    assert_eq!(type_value_of(2, 4), Ok(5));
    assert_eq!(type_value_of(1, 5), Ok(6));
    assert_eq!(type_value_of(1, 10), Ok(6));
    assert_eq!(type_value_of(0, 0), Err(HandError::NoCards));
    assert_eq!(type_value_of(3, 1), Err(HandError::Incomplete));
    assert_eq!(type_value_of(2, 2), Err(HandError::Incomplete));
    assert_eq!(type_value_of(6, 1), Err(HandError::Incomplete));
}

fn hand(s: &str) -> Hand {
    Hand::from_str(s, false).unwrap()
}

#[test]
fn weaker_goes_by_type_and_then_by_cards() {
    assert!(is_weaker(&hand("2AAAA"), &hand("33332")));
    assert!(!is_weaker(&hand("33332"), &hand("2AAAA")));
    assert!(is_weaker(&hand("77788"), &hand("77888")));
    assert!(is_weaker(&hand("23456"), &hand("22345")));
    assert!(!is_weaker(&hand("KK677"), &hand("KK677")));
    assert!(is_weaker(&hand("KTJJT"), &hand("KK677")));
}

#[test]
fn ranking_keeps_equal_hands_in_their_order() {
    let hands = vec![(hand("KK677"), 1), (hand("23456"), 2), (hand("KK677"), 3), (hand("AAAAA"), 4), (hand("KK677"), 5)];
    let bids: Vec<i32> = rank_hands(&hands).iter().map(|e| e.1).collect();
    assert_eq!(bids, vec![2, 1, 3, 5, 4]);
    assert_eq!(total_winnings(&rank_hands(&hands)), Ok(2 + 2 + 9 + 20 + 20));
}

#[test]
fn winnings_that_leave_32_bits_overflow() {
    let hands = vec![(hand("23456"), i32::MAX), (hand("AAAAA"), 1)];
    assert_eq!(total_winnings(&hands), Err(HandError::Overflow));
    let hands = vec![(hand("23456"), 1), (hand("AAAAA"), i32::MAX / 2 + 1)];
    assert_eq!(total_winnings(&hands), Err(HandError::Overflow));
    let hands = vec![(hand("23456"), 1), (hand("AAAAA"), i32::MAX / 2)];
    assert_eq!(total_winnings(&hands), Ok(i32::MAX));
    assert_eq!(total_winnings(&vec![]), Ok(0));
}

#[test]
fn lines_need_a_hand_and_a_bid() {
    let error_of = |s: &str| read_entry(&chars(s), false).map(|e| e.1);
    assert_eq!(error_of(""), Err(HandError::MissingHand));
    assert_eq!(error_of("   "), Err(HandError::MissingHand));
    assert_eq!(error_of("23456"), Err(HandError::MissingBid));
    assert_eq!(error_of("23456 x"), Err(HandError::BadBid));
    assert_eq!(error_of("23456 99999999999"), Err(HandError::BadBid));
    assert_eq!(error_of("2345X 7"), Err(HandError::BadCard));
    assert_eq!(error_of("2345X"), Err(HandError::BadCard));
    assert_eq!(error_of("23456 7 and more"), Ok(7));
    assert_eq!(error_of("  23456\t-7"), Ok(-7));
}

#[test]
fn list_errors_name_the_first_bad_line() {
    assert_eq!(process_hands("23456 1\n\n2345X 2\n", false), Err(HandError::MissingHand));
    assert_eq!(process_hands("23456 1\n2345X 2\n\n", false), Err(HandError::BadCard));
    assert_eq!(process_hands("", false), Ok(String::from("0")));
}
