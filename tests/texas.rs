use texas_odds::card::{iter_all_cards, Card, CardNum, Suit};
use texas_odds::hand::calc_hand;
use texas_odds::rules::HandType;

fn card(s: &str) -> Card {
    Card::parse(s).unwrap()
}

fn cards<const N: usize>(texts: [&str; N]) -> [Card; N] {
    texts.map(card)
}

#[test]
fn test_ord() {
    assert!(CardNum::Ace > CardNum::King);
    assert!(CardNum::King > CardNum::Two);
    assert!(HandType::RoyalFlush > HandType::HighCard);
}

#[test]
fn test_card() {
    let card: Card = card("210");
    assert_eq!(card.suit, Suit::Diamond);
    assert_eq!(card.num, CardNum::from_face(10).unwrap());
}

#[test]
fn test_hand_type() {
    assert_eq!(
        calc_hand(&cards(["21", "32", "43", "19", "2K"])).hand_type(),
        HandType::HighCard
    );
    assert_eq!(
        calc_hand(&cards(["21", "31", "43", "19", "2K"])).hand_type(),
        HandType::Pair
    );
    assert_eq!(
        calc_hand(&cards(["21", "31", "43", "13", "2K"])).hand_type(),
        HandType::TwoPair
    );
    assert_eq!(
        calc_hand(&cards(["21", "31", "41", "13", "2K"])).hand_type(),
        HandType::ThreeOfAKind
    );
    assert_eq!(
        calc_hand(&cards(["21", "31", "41", "11", "2K"])).hand_type(),
        HandType::FourOfAKind
    );
    assert_eq!(
        calc_hand(&cards(["2K", "32", "43", "14", "21"])).hand_type(),
        HandType::HighCard
    );
    assert_eq!(
        calc_hand(&cards(["21", "3K", "4Q", "1J", "2T"])).hand_type(),
        HandType::Straight
    );
    assert_eq!(
        calc_hand(&cards(["21", "32", "43", "14", "25"])).hand_type(),
        HandType::Straight
    );
    assert_eq!(
        calc_hand(&cards(["21", "29", "23", "24", "25"])).hand_type(),
        HandType::Flush
    );
    assert_eq!(
        calc_hand(&cards(["21", "31", "21", "42", "22"])).hand_type(),
        HandType::FullHouse
    );
    assert_eq!(
        calc_hand(&cards(["21", "11", "31", "41", "25"])).hand_type(),
        HandType::FourOfAKind
    );
    assert_eq!(
        calc_hand(&cards(["21", "22", "24", "23", "25"])).hand_type(),
        HandType::StraightFlush
    );
    assert_eq!(
        calc_hand(&cards(["210", "2J", "2K", "2Q", "2A"])).hand_type(),
        HandType::RoyalFlush
    );
}

#[test]
fn test_hand() {
    let hand = calc_hand(&cards(["211", "212", "213", "210", "21"]));
    assert_eq!(hand.hand_type(), HandType::RoyalFlush);

    let hand = calc_hand(&cards(["211", "212", "213", "210", "29"]));
    assert_eq!(hand.hand_type(), HandType::StraightFlush);

    let cards_a = cards(["211", "311", "411", "110", "29"]);
    let cards_b = cards(["211", "311", "411", "112", "29"]);
    assert!(calc_hand(&cards_a) < calc_hand(&cards_b));

    let cards_a = cards(["211", "311", "410", "110", "29"]);
    let cards_b = cards(["211", "311", "412", "112", "29"]);
    assert!(calc_hand(&cards_a) < calc_hand(&cards_b));

    let cards_a = cards(["211", "311", "410", "110", "29"]);
    let cards_b = cards(["211", "311", "410", "110", "212"]);
    assert!(calc_hand(&cards_a) < calc_hand(&cards_b));

    let cards_a = cards(["211", "311", "47", "110", "29"]);
    let cards_b = cards(["211", "311", "42", "212", "110"]);
    assert!(calc_hand(&cards_a) < calc_hand(&cards_b));

    let cards_a = cards(["211", "311", "212", "411", "111"]);
    let cards_b = cards(["213", "211", "311", "411", "111"]);
    assert!(calc_hand(&cards_a) < calc_hand(&cards_b));
}

#[test]
fn test_iter_all_cards() {
    assert_eq!(iter_all_cards().len(), 52);
}
