use advent::day07::{classify, parse, parse_card, parse_hand, parse_line, solve, Card, HandType};

#[test]
fn hand_parsing_test() {
    assert_eq!(HandType::FiveofAKind, parse_hand("33333").t);
    assert_eq!(HandType::FullHouse, parse_hand("32323").t);
    assert_eq!(HandType::FourofAKind, parse_hand("44442").t);
    assert_eq!(HandType::ThreeOfAKind, parse_hand("444AQ").t);
    assert_eq!(HandType::TwoPair, parse_hand("2323A").t);
    assert_eq!(HandType::OnePair, parse_hand("55234").t);
    assert_eq!(HandType::HighCard, parse_hand("62345").t);

    assert_eq!(HandType::FiveofAKind, parse_hand("5555X").t);
    assert_eq!(HandType::FiveofAKind, parse_hand("555XX").t);
    assert_eq!(HandType::FiveofAKind, parse_hand("55XXX").t);
    assert_eq!(HandType::FiveofAKind, parse_hand("5XXXX").t);
    assert_eq!(HandType::FiveofAKind, parse_hand("XXXXX").t);

    assert_eq!(HandType::FourofAKind, parse_hand("5553X").t);
    assert_eq!(HandType::FourofAKind, parse_hand("553XX").t);
    assert_eq!(HandType::FourofAKind, parse_hand("53XXX").t);

    assert_eq!(HandType::FullHouse, parse_hand("5533X").t);

    assert_eq!(HandType::ThreeOfAKind, parse_hand("234XX").t);

    assert_eq!(HandType::OnePair, parse_hand("5234X").t);
}

#[test]
fn cards_and_lines_are_read() {
    assert_eq!(Card::Jack, parse_card('J'));
    assert_eq!(Card::Joker, parse_card('X'));
    assert_eq!(Card::Ten, parse_card('T'));
    let (hand, bid) = parse_line("32T3K 765");
    assert_eq!(vec![Card::Three, Card::Two, Card::Ten, Card::Three, Card::King], hand.cards);
    assert_eq!(HandType::OnePair, hand.t);
    assert_eq!(765, bid);
}

#[test]
fn hands_of_other_sizes_are_high_cards_unless_five_agree() {
    assert_eq!(HandType::HighCard, classify(&vec![]));
    assert_eq!(HandType::HighCard, classify(&vec![Card::Ace, Card::Ace]));
    assert_eq!(HandType::FiveofAKind, classify(&vec![Card::Ace, Card::Ace, Card::Joker, Card::Joker, Card::Joker, Card::Two]));
    assert_eq!(HandType::HighCard, classify(&vec![Card::Ace; 6]));
}

const EXAMPLE: &str = "32T3K 765\nT55J5 684\nKK677 28\nKTJJT 220\nQQQJA 483\n";

#[test]
fn winnings_of_the_example() {
    assert_eq!(6440, solve(parse(EXAMPLE, Card::Jack)));
    assert_eq!(5905, solve(parse(EXAMPLE, Card::Joker)));
    assert_eq!(0, solve(vec![]));
    assert_eq!(5905, advent::day07_wild::solve(EXAMPLE));
}

#[test]
fn equal_hands_are_ordered_by_their_bids() {
    // of two hands that are the same, the one with the lower bid gets the higher rank
    assert_eq!(3 * 1 + 7 * 2 + 5 * 3, solve(parse("22222 7\nAKQJT 3\n22222 5\n", Card::Jack)));
    // a hand of fewer cards comes before the hands that it begins
    assert_eq!(4 * 2 + 9 * 1, solve(parse("AK 4\nAKQ 9\n", Card::Jack)));
}

#[test]
fn wild_hand_parsing_test() {
    assert_eq!(HandType::FiveofAKind, advent::day07_wild::parse_hand("33333").t);
    assert_eq!(HandType::FullHouse, advent::day07_wild::parse_hand("32323").t);
    assert_eq!(HandType::FourofAKind, advent::day07_wild::parse_hand("44442").t);
    assert_eq!(HandType::ThreeOfAKind, advent::day07_wild::parse_hand("444AQ").t);
    assert_eq!(HandType::TwoPair, advent::day07_wild::parse_hand("2323A").t);
    assert_eq!(HandType::OnePair, advent::day07_wild::parse_hand("55234").t);
    assert_eq!(HandType::HighCard, advent::day07_wild::parse_hand("62345").t);

    assert_eq!(HandType::FiveofAKind, advent::day07_wild::parse_hand("5555J").t);
    assert_eq!(HandType::FiveofAKind, advent::day07_wild::parse_hand("555JJ").t);
    assert_eq!(HandType::FiveofAKind, advent::day07_wild::parse_hand("55JJJ").t);
    assert_eq!(HandType::FiveofAKind, advent::day07_wild::parse_hand("5JJJJ").t);
    assert_eq!(HandType::FiveofAKind, advent::day07_wild::parse_hand("JJJJJ").t);

    assert_eq!(HandType::FourofAKind, advent::day07_wild::parse_hand("5553J").t);
    assert_eq!(HandType::FourofAKind, advent::day07_wild::parse_hand("553JJ").t);
    assert_eq!(HandType::FourofAKind, advent::day07_wild::parse_hand("53JJJ").t);

    assert_eq!(HandType::FullHouse, advent::day07_wild::parse_hand("5533J").t);

    assert_eq!(HandType::ThreeOfAKind, advent::day07_wild::parse_hand("234JJ").t);

    assert_eq!(HandType::OnePair, advent::day07_wild::parse_hand("5234J").t);
    assert_eq!(Card::Joker, advent::day07_wild::parse_card('J'));
}
