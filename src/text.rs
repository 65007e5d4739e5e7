use vstd::prelude::*;
use vstd::string::*;

use crate::card::{Card, CardNum, Suit};

verus! {

broadcast use vstd::string::next_postcondition;

/// The suit that a suit letter or digit selects.
pub open spec fn suit_of_char(c: char) -> Option<Suit> {
    if c == 'h' || c == 'H' || c == '1' {
        Some(Suit::Heart)
    } else if c == 'd' || c == 'D' || c == '2' {
        Some(Suit::Diamond)
    } else if c == 'c' || c == 'C' || c == '3' {
        Some(Suit::Club)
    } else if c == 's' || c == 'S' || c == '4' {
        Some(Suit::Spade)
    } else {
        None
    }
}

/// The rank that a one-character rank token selects.
pub open spec fn rank_of_char(c: char) -> Option<CardNum> {
    if c == '1' || c == 'A' || c == 'a' {
        Some(CardNum::Ace)
    } else if c == '2' {
        Some(CardNum::Two)
    } else if c == '3' {
        Some(CardNum::Three)
    } else if c == '4' {
        Some(CardNum::Four)
    } else if c == '5' {
        Some(CardNum::Five)
    } else if c == '6' {
        Some(CardNum::Six)
    } else if c == '7' {
        Some(CardNum::Seven)
    } else if c == '8' {
        Some(CardNum::Eight)
    } else if c == '9' {
        Some(CardNum::Nine)
    } else if c == 'T' || c == 't' {
        Some(CardNum::Ten)
    } else if c == 'J' || c == 'j' {
        Some(CardNum::Jack)
    } else if c == 'Q' || c == 'q' {
        Some(CardNum::Queen)
    } else if c == 'K' || c == 'k' {
        Some(CardNum::King)
    } else {
        None
    }
}

/// The rank that a rank token selects: one character, or "10" to "13".
pub open spec fn rank_of_token(t: Seq<char>) -> Option<CardNum> {
    if t.len() == 1 {
        rank_of_char(t[0])
    } else if t.len() == 2 && t[0] == '1' {
        if t[1] == '0' {
            Some(CardNum::Ten)
        } else if t[1] == '1' {
            Some(CardNum::Jack)
        } else if t[1] == '2' {
            Some(CardNum::Queen)
        } else if t[1] == '3' {
            Some(CardNum::King)
        } else {
            None
        }
    } else {
        None
    }
}

/// The card that a text selects: a suit character followed by a rank token.
pub open spec fn card_of_text(s: Seq<char>) -> Option<Card> {
    if s.len() < 2 {
        None
    } else {
        match (suit_of_char(s[0]), rank_of_token(s.drop_first())) {
            (Some(suit), Some(num)) => Some(Card { suit, num }),
            _ => None,
        }
    }
}

/// The canonical suit letter.
pub open spec fn suit_char(s: Suit) -> char {
    match s {
        Suit::Heart => 'h',
        Suit::Diamond => 'd',
        Suit::Club => 'c',
        Suit::Spade => 's',
    }
}

/// The canonical rank character.
pub open spec fn rank_char(n: CardNum) -> char {
    match n {
        CardNum::Two => '2',
        CardNum::Three => '3',
        CardNum::Four => '4',
        CardNum::Five => '5',
        CardNum::Six => '6',
        CardNum::Seven => '7',
        CardNum::Eight => '8',
        CardNum::Nine => '9',
        CardNum::Ten => 'T',
        CardNum::Jack => 'J',
        CardNum::Queen => 'Q',
        CardNum::King => 'K',
        CardNum::Ace => 'A',
    }
}

/// The canonical text of a card: its suit letter, then its rank character.
pub open spec fn card_text(c: Card) -> Seq<char> {
    seq![suit_char(c.suit), rank_char(c.num)]
}

/// Reading the canonical text of a card gives the card back, so rendering what was read
/// renders the same text again.
pub proof fn lemma_text_round_trip(c: Card)
    ensures
        card_of_text(card_text(c)) == Some(c),
        card_text(card_of_text(card_text(c))->0) == card_text(c),
{
    let t = card_text(c);
    assert(t.drop_first() =~= seq![rank_char(c.num)]);
}

/// Any text that reads as a card renders canonically to a text that reads as the same card.
pub proof fn lemma_read_then_render(s: Seq<char>)
    requires
        card_of_text(s) is Some,
    ensures
        card_of_text(card_text(card_of_text(s)->0)) == card_of_text(s),
{
    lemma_text_round_trip(card_of_text(s)->0);
}

fn suit_from_char(c: char) -> (r: Option<Suit>)
    ensures
        r == suit_of_char(c),
{
    match c {
        'h' | 'H' | '1' => Some(Suit::Heart),
        'd' | 'D' | '2' => Some(Suit::Diamond),
        'c' | 'C' | '3' => Some(Suit::Club),
        's' | 'S' | '4' => Some(Suit::Spade),
        _ => None,
    }
}

fn rank_from_char(c: char) -> (r: Option<CardNum>)
    ensures
        r == rank_of_char(c),
{
    match c {
        '1' | 'A' | 'a' => Some(CardNum::Ace),
        '2' => Some(CardNum::Two),
        '3' => Some(CardNum::Three),
        '4' => Some(CardNum::Four),
        '5' => Some(CardNum::Five),
        '6' => Some(CardNum::Six),
        '7' => Some(CardNum::Seven),
        '8' => Some(CardNum::Eight),
        '9' => Some(CardNum::Nine),
        'T' | 't' => Some(CardNum::Ten),
        'J' | 'j' => Some(CardNum::Jack),
        'Q' | 'q' => Some(CardNum::Queen),
        'K' | 'k' => Some(CardNum::King),
        _ => None,
    }
}

fn rank_from_pair(c: char, d: char) -> (r: Option<CardNum>)
    ensures
        r == rank_of_token(seq![c, d]),
{
    if c != '1' {
        None
    } else {
        match d {
            '0' => Some(CardNum::Ten),
            '1' => Some(CardNum::Jack),
            '2' => Some(CardNum::Queen),
            '3' => Some(CardNum::King),
            _ => None,
        }
    }
}

impl CardNum {
    /// Reads a rank token: `A`/`a`/`1`, `2` to `9`, `T`/`t`/`10`, `J`/`j`/`11`,
    /// `Q`/`q`/`12`, `K`/`k`/`13`. `None` for any other text.
    pub fn parse(s: &str) -> (r: Option<CardNum>)
        ensures
            r == rank_of_token(s@),
    {
        let mut it = s.chars();
        let c0 = it.next();
        let c1 = it.next();
        let c2 = it.next();
        match (c0, c1, c2) {
            (Some(a), None, _) => {
                assert(s@ =~= seq![a]);
                rank_from_char(a)
            },
            (Some(a), Some(b), None) => {
                assert(s@ =~= seq![a, b]);
                rank_from_pair(a, b)
            },
            _ => None,
        }
    }
}

impl Card {
    /// Reads a card from its text: a suit character (`h`/`H`/`1`, `d`/`D`/`2`,
    /// `c`/`C`/`3`, `s`/`S`/`4`) followed by a rank token (`A`/`a`/`1`, `2` to `9`,
    /// `T`/`t`/`10`, `J`/`j`/`11`, `Q`/`q`/`12`, `K`/`k`/`13`). `None` for any other text.
    pub fn parse(s: &str) -> (r: Option<Card>)
        ensures
            r == card_of_text(s@),
    {
        let mut it = s.chars();
        let c0 = it.next();
        let c1 = it.next();
        let c2 = it.next();
        let c3 = it.next();
        match (c0, c1, c2, c3) {
            (Some(a), Some(b), None, _) => {
                assert(s@.drop_first() =~= seq![b]);
                match (suit_from_char(a), rank_from_char(b)) {
                    (Some(suit), Some(num)) => Some(Card { suit, num }),
                    _ => None,
                }
            },
            (Some(a), Some(b), Some(c), None) => {
                assert(s@.drop_first() =~= seq![b, c]);
                match (suit_from_char(a), rank_from_pair(b, c)) {
                    (Some(suit), Some(num)) => Some(Card { suit, num }),
                    _ => None,
                }
            },
            _ => None,
        }
    }

    /// The canonical text of the card, such as `hA`, `dT` or `s7`.
    pub fn text(&self) -> (r: String)
        ensures
            r@ == card_text(*self),
    {
        let suit: &str = match self.suit {
            Suit::Heart => "h",
            Suit::Diamond => "d",
            Suit::Club => "c",
            Suit::Spade => "s",
        };
        let num: &str = match self.num {
            CardNum::Two => "2",
            CardNum::Three => "3",
            CardNum::Four => "4",
            CardNum::Five => "5",
            CardNum::Six => "6",
            CardNum::Seven => "7",
            CardNum::Eight => "8",
            CardNum::Nine => "9",
            CardNum::Ten => "T",
            CardNum::Jack => "J",
            CardNum::Queen => "Q",
            CardNum::King => "K",
            CardNum::Ace => "A",
        };
        proof {
            reveal_strlit("h");
            reveal_strlit("d");
            reveal_strlit("c");
            reveal_strlit("s");
            reveal_strlit("2");
            reveal_strlit("3");
            reveal_strlit("4");
            reveal_strlit("5");
            reveal_strlit("6");
            reveal_strlit("7");
            reveal_strlit("8");
            reveal_strlit("9");
            reveal_strlit("T");
            reveal_strlit("J");
            reveal_strlit("Q");
            reveal_strlit("K");
            reveal_strlit("A");
        }
        let r = String::from_str(suit).concat(num);
        assert(r@ =~= card_text(*self));
        r
    }
}

} // verus!
