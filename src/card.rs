use vstd::prelude::*;

verus! {

/// One of the four suits. Suits carry no order.
#[derive(Debug, Clone, Copy, PartialEq, Eq, Structural)]
pub enum Suit {
    Heart,
    Diamond,
    Club,
    Spade,
}

/// One of the thirteen ranks, from Two up to Ace (Ace high).
#[derive(Debug, Clone, Copy, PartialEq, Eq, Structural, PartialOrd, Ord, Hash)]
pub enum CardNum {
    Two,
    Three,
    Four,
    Five,
    Six,
    Seven,
    Eight,
    Nine,
    Ten,
    Jack,
    Queen,
    King,
    Ace,
}

/// A playing card: a rank and a suit.
#[derive(Debug, Clone, Copy, PartialEq, Eq, Structural)]
pub struct Card {
    pub suit: Suit,
    pub num: CardNum,
}

/// Position of a rank in the rank order: Two is 0, Ace is 12.
pub open spec fn rank_value(n: CardNum) -> int {
    match n {
        CardNum::Two => 0,
        CardNum::Three => 1,
        CardNum::Four => 2,
        CardNum::Five => 3,
        CardNum::Six => 4,
        CardNum::Seven => 5,
        CardNum::Eight => 6,
        CardNum::Nine => 7,
        CardNum::Ten => 8,
        CardNum::Jack => 9,
        CardNum::Queen => 10,
        CardNum::King => 11,
        CardNum::Ace => 12,
    }
}

/// The rank at a position of the rank order.
pub open spec fn rank_at(v: int) -> CardNum {
    if v <= 0 {
        CardNum::Two
    } else if v == 1 {
        CardNum::Three
    } else if v == 2 {
        CardNum::Four
    } else if v == 3 {
        CardNum::Five
    } else if v == 4 {
        CardNum::Six
    } else if v == 5 {
        CardNum::Seven
    } else if v == 6 {
        CardNum::Eight
    } else if v == 7 {
        CardNum::Nine
    } else if v == 8 {
        CardNum::Ten
    } else if v == 9 {
        CardNum::Jack
    } else if v == 10 {
        CardNum::Queen
    } else if v == 11 {
        CardNum::King
    } else {
        CardNum::Ace
    }
}

/// The face number of a rank: Ace is 1, Two to Ten are themselves, Jack, Queen and
/// King are 11, 12 and 13.
pub open spec fn face_number(n: CardNum) -> int {
    if n == CardNum::Ace {
        1
    } else {
        rank_value(n) + 2
    }
}

/// Position of a suit among Heart, Diamond, Club, Spade (from 0).
pub open spec fn suit_value(s: Suit) -> int {
    match s {
        Suit::Heart => 0,
        Suit::Diamond => 1,
        Suit::Club => 2,
        Suit::Spade => 3,
    }
}

pub open spec fn suit_at(v: int) -> Suit {
    if v <= 0 {
        Suit::Heart
    } else if v == 1 {
        Suit::Diamond
    } else if v == 2 {
        Suit::Club
    } else {
        Suit::Spade
    }
}

pub proof fn lemma_rank_at_value(n: CardNum)
    ensures
        rank_at(rank_value(n)) == n,
        0 <= rank_value(n) < 13,
{
}

/// Whether `b` directly follows `a` in the cyclic rank order (King then Ace, Ace then Two).
pub open spec fn follows(a: CardNum, b: CardNum) -> bool {
    rank_value(b) == rank_value(a) + 1 || (a == CardNum::Ace && b == CardNum::Two)
}

/// Position of a card in the deck order: suits Heart, Diamond, Club, Spade, and within a
/// suit the face numbers 1 (Ace) to 13 (King).
pub open spec fn deck_index(c: Card) -> int {
    suit_value(c.suit) * 13 + face_number(c.num) - 1
}

/// The card at a position of the deck order.
pub open spec fn deck_card(i: int) -> Card {
    let f = i % 13;
    Card { suit: suit_at(i / 13), num: if f == 0 { CardNum::Ace } else { rank_at(f - 1) } }
}

/// The 52 cards in deck order.
pub open spec fn deck() -> Seq<Card> {
    Seq::new(52, |i: int| deck_card(i))
}

pub proof fn lemma_deck_card_index(c: Card)
    ensures
        0 <= deck_index(c) < 52,
        deck_card(deck_index(c)) == c,
{
    let i = deck_index(c);
    assert(i / 13 == suit_value(c.suit) && i % 13 == face_number(c.num) - 1);
}

pub proof fn lemma_deck_index_card(i: int)
    requires
        0 <= i < 52,
    ensures
        deck_index(deck_card(i)) == i,
{
}

/// The deck holds every card exactly once.
pub proof fn lemma_deck_complete(c: Card)
    ensures
        deck().contains(c),
        deck()[deck_index(c)] == c,
{
    lemma_deck_card_index(c);
}

pub proof fn lemma_deck_distinct()
    ensures
        deck().no_duplicates(),
{
    assert forall|i: int, j: int| 0 <= i < 52 && 0 <= j < 52 && i != j implies deck()[i]
        != deck()[j] by {
        lemma_deck_index_card(i);
        lemma_deck_index_card(j);
    }
}

impl CardNum {
    /// Position in the rank order: Two is 0, Ace is 12.
    pub fn value(&self) -> (r: u8)
        ensures
            r as int == rank_value(*self),
    {
        match self {
            CardNum::Two => 0,
            CardNum::Three => 1,
            CardNum::Four => 2,
            CardNum::Five => 3,
            CardNum::Six => 4,
            CardNum::Seven => 5,
            CardNum::Eight => 6,
            CardNum::Nine => 7,
            CardNum::Ten => 8,
            CardNum::Jack => 9,
            CardNum::Queen => 10,
            CardNum::King => 11,
            CardNum::Ace => 12,
        }
    }

    /// The rank at a position of the rank order.
    pub fn from_value(v: u8) -> (r: CardNum)
        requires
            v < 13,
        ensures
            r == rank_at(v as int),
    {
        match v {
            0 => CardNum::Two,
            1 => CardNum::Three,
            2 => CardNum::Four,
            3 => CardNum::Five,
            4 => CardNum::Six,
            5 => CardNum::Seven,
            6 => CardNum::Eight,
            7 => CardNum::Nine,
            8 => CardNum::Ten,
            9 => CardNum::Jack,
            10 => CardNum::Queen,
            11 => CardNum::King,
            _ => CardNum::Ace,
        }
    }

    /// Whether `other` directly follows this rank (King then Ace, and Ace then Two).
    pub fn is_next(&self, other: &Self) -> (r: bool)
        ensures
            r == follows(*self, *other),
    {
        match (self, other) {
            (CardNum::Ace, CardNum::Two) => true,
            (CardNum::Two, CardNum::Three) => true,
            (CardNum::Three, CardNum::Four) => true,
            (CardNum::Four, CardNum::Five) => true,
            (CardNum::Five, CardNum::Six) => true,
            (CardNum::Six, CardNum::Seven) => true,
            (CardNum::Seven, CardNum::Eight) => true,
            (CardNum::Eight, CardNum::Nine) => true,
            (CardNum::Nine, CardNum::Ten) => true,
            (CardNum::Ten, CardNum::Jack) => true,
            (CardNum::Jack, CardNum::Queen) => true,
            (CardNum::Queen, CardNum::King) => true,
            (CardNum::King, CardNum::Ace) => true,
            _ => false,
        }
    }

    /// The rank with a face number (Ace is 1, King is 13); `None` outside 1..=13.
    pub fn from_face(f: usize) -> (r: Option<CardNum>)
        ensures
            1 <= f <= 13 <==> r is Some,
            r matches Some(n) ==> face_number(n) == f,
    {
        if f == 1 {
            Some(CardNum::Ace)
        } else if 2 <= f && f <= 13 {
            Some(CardNum::from_value((f - 2) as u8))
        } else {
            None
        }
    }

    /// The face number: Ace is 1, King is 13.
    pub fn face(&self) -> (r: usize)
        ensures
            r as int == face_number(*self),
    {
        match self {
            CardNum::Ace => 1,
            _ => self.value() as usize + 2,
        }
    }
}

impl Suit {
    /// The suit numbered 1 (Heart) to 4 (Spade); `None` outside 1..=4.
    pub fn from_number(v: usize) -> (r: Option<Suit>)
        ensures
            1 <= v <= 4 <==> r is Some,
            r matches Some(s) ==> suit_value(s) == v - 1,
    {
        match v {
            1 => Some(Suit::Heart),
            2 => Some(Suit::Diamond),
            3 => Some(Suit::Club),
            4 => Some(Suit::Spade),
            _ => None,
        }
    }
}

impl Card {
    pub fn new(suit: Suit, num: CardNum) -> (r: Card)
        ensures
            r.suit == suit,
            r.num == num,
    {
        Card { suit, num }
    }

    /// Position in the deck order (0 to 51).
    pub fn deck_position(&self) -> (r: usize)
        ensures
            r as int == deck_index(*self),
            r < 52,
    {
        let s: usize = match self.suit {
            Suit::Heart => 0,
            Suit::Diamond => 1,
            Suit::Club => 2,
            Suit::Spade => 3,
        };
        s * 13 + self.num.face() - 1
    }
}

/// Cards order by rank alone: two cards of one rank are equal in this order only when
/// their suits agree as well, and are otherwise unordered.
pub open spec fn card_cmp(a: Card, b: Card) -> Option<core::cmp::Ordering> {
    if rank_value(a.num) < rank_value(b.num) {
        Some(core::cmp::Ordering::Less)
    } else if rank_value(a.num) > rank_value(b.num) {
        Some(core::cmp::Ordering::Greater)
    } else if a.suit == b.suit {
        Some(core::cmp::Ordering::Equal)
    } else {
        None
    }
}

impl PartialOrd for Card {
    fn partial_cmp(&self, other: &Card) -> (r: Option<core::cmp::Ordering>)
        ensures
            r == card_cmp(*self, *other),
    {
        let a = self.num.value();
        let b = other.num.value();
        if a < b {
            Some(core::cmp::Ordering::Less)
        } else if a > b {
            Some(core::cmp::Ordering::Greater)
        } else if self.suit == other.suit {
            Some(core::cmp::Ordering::Equal)
        } else {
            None
        }
    }
}

impl vstd::std_specs::cmp::PartialOrdSpecImpl for Card {
    open spec fn obeys_partial_cmp_spec() -> bool {
        true
    }

    open spec fn partial_cmp_spec(&self, other: &Card) -> Option<core::cmp::Ordering> {
        card_cmp(*self, *other)
    }
}

/// The 52 cards of a deck, suit by suit (Heart, Diamond, Club, Spade), each suit from
/// Ace up to King.
pub fn iter_all_cards() -> (r: Vec<Card>)
    ensures
        r@ == deck(),
{
    let mut r: Vec<Card> = Vec::new();
    let mut suit: usize = 1;
    while suit <= 4
        invariant
            1 <= suit <= 5,
            r@.len() == (suit - 1) * 13,
            forall|i: int| 0 <= i < r@.len() ==> r@[i] == deck_card(i),
        decreases 5 - suit,
    {
        let s = match Suit::from_number(suit) {
            Some(s) => s,
            None => Suit::Spade,
        };
        let mut num: usize = 1;
        while num <= 13
            invariant
                1 <= suit <= 4,
                1 <= num <= 14,
                suit_value(s) == suit - 1,
                r@.len() == (suit - 1) * 13 + num - 1,
                forall|i: int| 0 <= i < r@.len() ==> r@[i] == deck_card(i),
            decreases 14 - num,
        {
            let n = match CardNum::from_face(num) {
                Some(n) => n,
                None => CardNum::Ace,
            };
            proof {
                let i = r@.len() as int;
                assert(i / 13 == suit - 1 && i % 13 == num - 1) by (nonlinear_arith)
                    requires
                        i == (suit - 1) * 13 + num - 1,
                        1 <= num <= 13,
                ;
                lemma_rank_at_value(n);
            }
            r.push(Card { suit: s, num: n });
            num = num + 1;
        }
        suit = suit + 1;
    }
    assert(r@ =~= deck());
    r
}

} // verus!
