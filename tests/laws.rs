use texas_odds::best::get_max_hand;
use texas_odds::card::{iter_all_cards, Card, CardNum, Suit};
use texas_odds::completions::{enumerate_n_cards, evaluate};
use texas_odds::equity::{strength_category, Stage};
use texas_odds::hand::calc_hand;
use texas_odds::rules::HandType;

fn card(s: &str) -> Card {
    Card::parse(s).unwrap()
}

fn cards<const N: usize>(texts: [&str; N]) -> [Card; N] {
    texts.map(card)
}

fn key(texts: &[&str]) -> Vec<CardNum> {
    texts.iter().map(|t| CardNum::parse(t).unwrap()).collect()
}

#[test]
fn text_round_trip_for_every_card() {
    for c in iter_all_cards() {
        let text = c.text();
        assert_eq!(Card::parse(&text), Some(c));
        assert_eq!(Card::parse(&text).unwrap().text(), text);
    }
    assert_eq!(card("s10").text(), "sT");
    assert_eq!(card("H1").text(), "hA");
    assert_eq!(card("413").text(), "sK");
    assert_eq!(card("c11").text(), "cJ");
}

#[test]
fn parse_rejects_bad_text() {
    assert_eq!(Card::parse(""), None);
    assert_eq!(Card::parse("h"), None);
    assert_eq!(Card::parse("x5"), None);
    assert_eq!(Card::parse("h14"), None);
    assert_eq!(Card::parse("hZ"), None);
    assert_eq!(Card::parse("h100"), None);
    assert_eq!(CardNum::parse("0"), None);
    assert_eq!(CardNum::parse("10"), Some(CardNum::Ten));
    assert_eq!(CardNum::parse("q"), Some(CardNum::Queen));
}

#[test]
fn numbered_constructors() {
    assert_eq!(CardNum::from_face(1), Some(CardNum::Ace));
    assert_eq!(CardNum::from_face(13), Some(CardNum::King));
    assert_eq!(CardNum::from_face(0), None);
    assert_eq!(CardNum::from_face(14), None);
    assert_eq!(Suit::from_number(4), Some(Suit::Spade));
    assert_eq!(Suit::from_number(5), None);
    assert_eq!(HandType::from_index(9), Some(HandType::RoyalFlush));
    assert_eq!(HandType::from_index(10), None);
    assert_eq!(HandType::Flush.index(), 5);
    assert!(CardNum::Ace.is_next(&CardNum::Two));
    assert!(CardNum::King.is_next(&CardNum::Ace));
    assert!(!CardNum::Two.is_next(&CardNum::Four));
}

#[test]
fn deck_order_and_positions() {
    let deck = iter_all_cards();
    assert_eq!(deck[0], card("hA"));
    assert_eq!(deck[12], card("hK"));
    assert_eq!(deck[13], card("dA"));
    assert_eq!(deck[51], card("sK"));
    for (i, c) in deck.iter().enumerate() {
        assert_eq!(c.deck_position(), i);
    }
}

#[test]
fn card_order_is_by_rank() {
    assert!(card("hK") < card("d1"));
    assert_eq!(card("h5").partial_cmp(&card("d5")), None);
    assert_eq!(
        card("h5").partial_cmp(&card("h5")),
        Some(std::cmp::Ordering::Equal)
    );
}

#[test]
fn reordering_keeps_category_and_key() {
    let a = calc_hand(&cards(["h9", "d9", "sK", "c2", "h2"]));
    let b = calc_hand(&cards(["c2", "sK", "h2", "d9", "h9"]));
    assert_eq!(a.hand_type(), HandType::TwoPair);
    assert!(a == b);
    assert_eq!(a.cmp_cards().to_vec(), key(&["9", "2", "K"]));
    assert_eq!(b.cmp_cards().to_vec(), key(&["9", "2", "K"]));
}

#[test]
fn royal_flush_beats_straight_flush() {
    let royal = calc_hand(&cards(["hA", "hK", "hQ", "hJ", "hT"]));
    let straight_flush = calc_hand(&cards(["sK", "sQ", "sJ", "sT", "s9"]));
    assert_eq!(royal.hand_type(), HandType::RoyalFlush);
    assert_eq!(straight_flush.hand_type(), HandType::StraightFlush);
    assert!(straight_flush < royal);
    assert!(royal.cmp_cards().is_empty());
}

#[test]
fn wheel_is_lowest_straight() {
    let wheel = calc_hand(&cards(["hA", "d2", "c3", "s4", "h5"]));
    let six_high = calc_hand(&cards(["h2", "d3", "c4", "s5", "h6"]));
    let ace_high = calc_hand(&cards(["hA", "dK", "c3", "s4", "h5"]));
    assert_eq!(wheel.hand_type(), HandType::Straight);
    assert_eq!(wheel.cmp_cards().to_vec(), key(&["5", "4", "3", "2", "A"]));
    assert!(wheel < six_high);
    assert!(ace_high < wheel);
    let steel_wheel = calc_hand(&cards(["dA", "d2", "d3", "d4", "d5"]));
    let six_high_flush = calc_hand(&cards(["d2", "d3", "d4", "d5", "d6"]));
    assert_eq!(steel_wheel.hand_type(), HandType::StraightFlush);
    assert!(steel_wheel < six_high_flush);
}

#[test]
fn tie_break_keys() {
    assert_eq!(
        calc_hand(&cards(["h7", "d7", "c7", "s7", "h2"])).cmp_cards().to_vec(),
        key(&["7", "2"])
    );
    assert_eq!(
        calc_hand(&cards(["h7", "d7", "c7", "sK", "h2"])).cmp_cards().to_vec(),
        key(&["7", "K", "2"])
    );
    assert_eq!(
        calc_hand(&cards(["h7", "d7", "cA", "sK", "h2"])).cmp_cards().to_vec(),
        key(&["7", "A", "K", "2"])
    );
    assert_eq!(
        calc_hand(&cards(["h3", "d3", "c3", "sK", "hK"])).cmp_cards().to_vec(),
        key(&["K", "K", "3", "3", "3"])
    );
    assert_eq!(
        calc_hand(&cards(["h2", "h9", "hK", "h4", "h7"])).cmp_cards().to_vec(),
        key(&["K", "9", "7", "4", "2"])
    );
    let ace_flush = calc_hand(&cards(["hA", "h9", "h3", "h4", "h7"]));
    let king_flush = calc_hand(&cards(["sK", "sQ", "sJ", "s9", "s7"]));
    assert!(king_flush < ace_flush);
}

#[test]
fn hand_keeps_its_cards() {
    let given = cards(["sK", "h2", "d9", "c9", "h9"]);
    let hand = calc_hand(&given);
    assert_eq!(hand.cards().to_vec(), given.to_vec());
}

#[test]
fn best_of_seven_finds_four_of_a_kind() {
    let hand = get_max_hand(&cards(["sA", "h8", "d8", "c8", "s8", "h2", "dK"]));
    assert_eq!(hand.hand_type(), HandType::FourOfAKind);
    assert_eq!(hand.cmp_cards().to_vec(), key(&["8", "A"]));
    let full_house = get_max_hand(&cards(["sA", "h8", "d8", "c8", "hA", "h2", "dA"]));
    assert_eq!(full_house.hand_type(), HandType::FullHouse);
}

#[test]
fn strengths_order_hands() {
    let low = evaluate(&cards(["h2", "d3", "c4", "s5", "h7"]));
    let pair = evaluate(&cards(["h2", "d2", "c4", "s5", "h7"]));
    let seven = evaluate(&cards(["h2", "d2", "c4", "s5", "h7", "s2", "c2"]));
    assert!(low < pair);
    assert!(pair < seven);
    assert_eq!(strength_category(low), Some(HandType::HighCard));
    assert_eq!(strength_category(pair), Some(HandType::Pair));
    assert_eq!(strength_category(seven), Some(HandType::FourOfAKind));
    assert_eq!(strength_category(low), Some(HandType::HighCard));
    assert_eq!(strength_category(3712929), Some(HandType::RoyalFlush));
    assert_eq!(strength_category(3712930), None);
}

#[test]
fn completing_two_cards_to_five() {
    let known = cards(["hA", "sK"]);
    assert_eq!(enumerate_n_cards(&known, 3).count(), 19600);
    assert_eq!(enumerate_n_cards(&known, 0).count(), 1);
    let mut out = Vec::new();
    enumerate_n_cards(&cards(["hA", "sK", "d2", "c7", "s9"]), 0).strengths_into(&mut out);
    assert_eq!(out.len(), 1);
    assert_eq!(strength_category(out[0]), Some(HandType::HighCard));
}

#[test]
fn win_rate_summary_is_consistent() {
    let stage = Stage::new(cards(["h5", "h6"]), &cards(["s10", "d4", "sJ", "h5", "dJ"]));
    let rate = stage.win_rate();
    assert_eq!(rate.hands, 1);
    assert_eq!(rate.field_size, 1081);
    assert!(rate.min <= rate.median && rate.median <= rate.max);
    assert!(rate.max as usize <= rate.field_size);
    assert_eq!(rate.self_counts.iter().sum::<u64>(), 1);
    assert_eq!(rate.other_counts.iter().sum::<u64>(), 1081);
    assert_eq!(rate.self_counts[HandType::TwoPair.index()], 1);
    let m = stage.matchup();
    assert!(m.field.windows(2).all(|w| w[0] <= w[1]));
    assert_eq!(m.wins[0] as u128, rate.win_sum);
    assert_eq!(m.ties[0] as u128, rate.tie_sum);
    let below = m.field.iter().filter(|s| **s < m.mine[0]).count() as u64;
    let equal = m.field.iter().filter(|s| **s == m.mine[0]).count() as u64;
    assert_eq!(m.wins[0], below);
    assert_eq!(m.ties[0], equal);
}

#[test]
fn more_players_lower_the_win_rate() {
    let stage = Stage::new(cards(["hA", "h9"]), &cards(["h2", "h5", "hK", "s3", "c8"]));
    let mut last = f64::INFINITY;
    for n in 2..8 {
        let odds = stage.win_rate_with_n_players(n);
        assert_eq!(odds.players, n);
        let total = odds.field_size as f64;
        let win = odds
            .wins
            .iter()
            .map(|w| (*w as f64 / total).powi(n as i32))
            .sum::<f64>()
            / odds.wins.len() as f64;
        assert!(win <= last);
        assert!(win > 0.0);
        last = win;
    }
}

#[test]
fn flop_stage_counts() {
    let stage = Stage::new(cards(["h2", "d7"]), &cards(["sK", "cQ", "h9"]));
    let odds = stage.win_rate_with_n_players(3);
    assert_eq!(odds.wins.len(), 1081);
    assert_eq!(odds.field_size, 49 * 48 * 47 * 46 / 24);
    assert_eq!(odds.hand_counts.iter().sum::<u64>(), 1081);
    assert_eq!(stage.community_cards().to_vec(), cards(["sK", "cQ", "h9"]).to_vec());
    assert_eq!(stage.hole_cards(), cards(["h2", "d7"]));
}

#[test]
fn strength_formula_values() {
    // Seven-high: key 7, 5, 4, 3, 2 as rank positions 5, 3, 2, 1, 0 in base 13.
    let seven_high = calc_hand(&cards(["h7", "d5", "c4", "s3", "h2"]));
    assert_eq!(seven_high.strength(), 5 * 28561 + 3 * 2197 + 2 * 169 + 13);
    let royal = calc_hand(&cards(["sA", "sK", "sQ", "sJ", "sT"]));
    assert_eq!(royal.strength(), 9 * 371293);
    let quads = calc_hand(&cards(["h7", "d7", "c7", "s7", "h2"]));
    assert_eq!(quads.strength(), 7 * 371293 + 5 * 13);
}
