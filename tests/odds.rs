use texas_odds::best::get_max_hand;
use texas_odds::card::{Card, CardNum};
use texas_odds::completions::enumerate_n_cards;
use texas_odds::equity::{strength_category, Stage};
use texas_odds::rules::HandType;

fn card(s: &str) -> Card {
    Card::parse(s).unwrap()
}

fn cards<const N: usize>(texts: [&str; N]) -> [Card; N] {
    texts.map(card)
}

#[test]
fn odds_test_max_hand() {
    let hand = get_max_hand(&cards(["41", "28", "28", "28", "11", "21", "31"]));
    assert_eq!(hand.hand_type(), HandType::FourOfAKind);
    assert_eq!(
        hand.cmp_cards().to_vec(),
        vec![CardNum::parse("1").unwrap(), CardNum::parse("8").unwrap()]
    );
}

#[test]
fn odds_test_append_cards() {
    let mut hands = Vec::new();
    enumerate_n_cards(&cards(["41", "31", "21", "11", "18"]), 2).strengths_into(&mut hands);
    assert_eq!(hands.len(), 1081);
}

#[test]
fn odds_win_rate() {
    let stage = Stage::new([card("45"), card("H6")], &[]);
    let rate = stage.win_rate();
    assert_eq!(rate.hands, 19600);
    assert_eq!(rate.field_size, 2598960);
}

#[test]
fn odds_win_rate_2() {
    let stage = Stage::new([card("28"), card("13")], &cards(["310", "210", "38"]));
    let rate = stage.win_rate();
    assert_eq!(rate.hands, 1081);
}

#[test]
fn win_rate_3() {
    let stage = Stage::new(
        [card("34"), card("45")],
        &cards(["2K", "12", "23", "17", "19"]),
    );
    let odds = stage.win_rate_with_n_players(5);
    assert_eq!(odds.players, 5);
    assert_eq!(odds.wins.len(), 1);
}

#[test]
fn odds_should_i_wait_for_flush() {
    let mut hands = Vec::new();
    enumerate_n_cards(&cards(["41", "48", "49", "44", "21"]), 2).strengths_into(&mut hands);
    let flush_count = hands
        .iter()
        .filter(|x| strength_category(**x) == Some(HandType::Flush))
        .count();
    println!("{}", flush_count as f64 / hands.len() as f64);
}

#[test]
fn odds_test_append() {
    let cards = enumerate_n_cards(&[], 5);
    assert_eq!(cards.count(), 2598960);
    let cards = enumerate_n_cards(&[], 4);
    assert_eq!(cards.count(), 52 * 51 * 50 * 49 / 4 / 3 / 2);
}
