//! Classifying five cards into a hand.
use vstd::prelude::*;

use crate::buffers::{
    five_from_slice, five_items, five_slice, rank_items, ranks_new, ranks_push, ranks_slice,
};
use crate::card::{rank_value, Card, CardNum};
use crate::rules::{
    category_value, descending, hand_category, hand_key, hand_less, is_four, is_full_house,
    is_pair, is_straight, is_three, is_two_pair, is_wheel, key_four, key_number, key_pair,
    key_three, key_two_pair, lemma_key_number_push, lemma_key_valid, lemma_sorted_cards,
    lemma_sorted_ranks, lex_less, ranks_of, same_suit, sorted_ranks, strength, valid_score,
    HandType,
};

verus! {

broadcast use vstd::seq_lib::group_to_multiset_ensures;

/// The cards are in ascending order of rank.
pub open spec fn rank_sorted(cs: Seq<Card>) -> bool {
    forall|i: int, j: int|
        0 <= i < j < cs.len() ==> rank_value(#[trigger] cs[i].num) <= rank_value(
            #[trigger] cs[j].num,
        )
}

/// The ranks held in a key buffer, as positions in the rank order.
pub open spec fn key_ranks(v: heapless::Vec<CardNum, 5>) -> Seq<int> {
    rank_items(v).map_values(|n: CardNum| rank_value(n))
}

/// A classified hand of five cards: its category, its tie-break key and its cards.
#[derive(Debug)]
pub struct Hand {
    hand: HandType,
    hand_cmp_cards: heapless::Vec<CardNum, 5>,
    cards: heapless::Vec<Card, 5>,
}

impl Hand {
    pub closed spec fn category(&self) -> HandType {
        self.hand
    }

    /// The tie-break key, as positions in the rank order.
    pub closed spec fn key(&self) -> Seq<int> {
        key_ranks(self.hand_cmp_cards)
    }

    /// The five cards that were classified, as given.
    pub closed spec fn card_seq(&self) -> Seq<Card> {
        five_items(self.cards)
    }

    /// The key has its category's length and holds ranks.
    pub open spec fn wf(&self) -> bool {
        valid_score(self.category(), self.key())
    }

    pub fn hand_type(&self) -> (r: HandType)
        ensures
            r == self.category(),
    {
        self.hand
    }

    pub fn cards(&self) -> (r: &[Card])
        ensures
            r@ == self.card_seq(),
    {
        five_slice(&self.cards)
    }

    /// The tie-break key.
    pub fn cmp_cards(&self) -> (r: &[CardNum])
        ensures
            r@.map_values(|n: CardNum| rank_value(n)) == self.key(),
    {
        ranks_slice(&self.hand_cmp_cards)
    }

    /// A number that orders hands as they are ordered by category and key.
    pub fn strength(&self) -> (r: u64)
        requires
            self.wf(),
        ensures
            r == strength(self.category(), self.key()),
    {
        let key = ranks_slice(&self.hand_cmp_cards);
        let mut acc: u64 = 0;
        let mut i: usize = 0;
        proof {
            crate::rules::lemma_key_number_bound(self.key());
            crate::rules::lemma_pow13_monotone(self.key().len(), 5);
            assert(self.key().take(0) =~= Seq::<int>::empty());
        }
        while i < key.len()
            invariant
                key@.map_values(|n: CardNum| rank_value(n)) == self.key(),
                self.wf(),
                0 <= i <= key@.len(),
                acc == key_number(self.key().take(i as int)),
            decreases key@.len() - i,
        {
            let d = key[i].value();
            proof {
                let k = self.key();
                assert(k.take(i + 1) =~= k.take(i as int).push(d as int));
                lemma_key_number_push(k.take(i as int), d as int);
                assert forall|j: int| 0 <= j < k.take(i + 1).len() implies 0 <= #[trigger] k.take(
                    i + 1,
                )[j] < 13 by {}
                crate::rules::lemma_key_number_bound(k.take(i + 1));
                crate::rules::lemma_pow13_monotone((i + 1) as nat, 5);
                crate::rules::lemma_pow13_five();
            }
            acc = acc * 13 + d as u64;
            i = i + 1;
        }
        proof {
            assert(self.key().take(i as int) =~= self.key());
            crate::rules::lemma_pow13_five();
        }
        self.category_index() as u64 * 371293 + acc
    }

    fn category_index(&self) -> (r: u8)
        ensures
            r as int == category_value(self.category()),
    {
        match self.hand {
            HandType::HighCard => 0,
            HandType::Pair => 1,
            HandType::TwoPair => 2,
            HandType::ThreeOfAKind => 3,
            HandType::Straight => 4,
            HandType::Flush => 5,
            HandType::FullHouse => 6,
            HandType::FourOfAKind => 7,
            HandType::StraightFlush => 8,
            HandType::RoyalFlush => 9,
        }
    }
}

proof fn lemma_key_view(h: &Hand)
    ensures
        h.key() == key_ranks(h.hand_cmp_cards),
        h.key().len() == rank_items(h.hand_cmp_cards).len(),
        forall|i: int|
            0 <= i < h.key().len() ==> #[trigger] h.key()[i] == rank_value(
                rank_items(h.hand_cmp_cards)[i],
            ),
        h.category() == h.hand,
{
}

/// Builds a key buffer from at most five ranks.
fn key_from(nums: &[CardNum]) -> (r: heapless::Vec<CardNum, 5>)
    requires
        nums@.len() <= 5,
    ensures
        rank_items(r) == nums@,
{
    let mut v = ranks_new();
    let mut i: usize = 0;
    while i < nums.len()
        invariant
            nums@.len() <= 5,
            0 <= i <= nums@.len(),
            rank_items(v) == nums@.take(i as int),
        decreases nums@.len() - i,
    {
        ranks_push(&mut v, nums[i]);
        assert(nums@.take(i + 1) =~= nums@.take(i as int).push(nums@[i as int]));
        i = i + 1;
    }
    assert(nums@.take(i as int) =~= nums@);
    v
}

/// Sorts five cards by rank.
fn sort_by_rank(cards: &[Card]) -> (r: [Card; 5])
    requires
        cards@.len() == 5,
    ensures
        r@.to_multiset() == cards@.to_multiset(),
        rank_sorted(r@),
{
    let mut a: [Card; 5] = [cards[0], cards[1], cards[2], cards[3], cards[4]];
    assert(a@ =~= cards@);
    let mut i: usize = 0;
    while i < 5
        invariant
            0 <= i <= 5,
            a@.len() == 5,
            a@.to_multiset() == cards@.to_multiset(),
            forall|p: int, q: int|
                0 <= p < q < 5 && p < i ==> rank_value(#[trigger] a@[p].num) <= rank_value(
                    #[trigger] a@[q].num,
                ),
        decreases 5 - i,
    {
        let mut m: usize = i;
        let mut j: usize = i + 1;
        while j < 5
            invariant
                0 <= i < 5,
                i <= m < 5,
                i < j <= 5,
                m < j,
                a@.len() == 5,
                forall|q: int|
                    i <= q < j ==> rank_value(a@[m as int].num) <= rank_value(#[trigger] a@[q].num),
            decreases 5 - j,
        {
            if a[j].num.value() < a[m].num.value() {
                m = j;
            }
            j = j + 1;
        }
        let x = a[i];
        let y = a[m];
        let ghost before = a@;
        a[i] = y;
        a[m] = x;
        proof {
            assert(a@ =~= before.update(i as int, y).update(m as int, x));
            assert(a@.to_multiset() =~= before.to_multiset()) by {
                broadcast use vstd::multiset::group_multiset_axioms;

                vstd::seq_lib::to_multiset_update(before, i as int, y);
                vstd::seq_lib::to_multiset_update(before.update(i as int, y), m as int, x);
            }
        }
        i = i + 1;
    }
    a
}

impl HandType {
    /// Position of the category in the order of strength, from 0 to 9.
    pub fn index(&self) -> (r: usize)
        ensures
            r as int == category_value(*self),
    {
        match self {
            HandType::HighCard => 0,
            HandType::Pair => 1,
            HandType::TwoPair => 2,
            HandType::ThreeOfAKind => 3,
            HandType::Straight => 4,
            HandType::Flush => 5,
            HandType::FullHouse => 6,
            HandType::FourOfAKind => 7,
            HandType::StraightFlush => 8,
            HandType::RoyalFlush => 9,
        }
    }

    /// The category at a position of the order of strength; `None` from 10 on.
    pub fn from_index(i: usize) -> (r: Option<HandType>)
        ensures
            i < 10 <==> r is Some,
            r matches Some(t) ==> category_value(t) == i,
    {
        match i {
            0 => Some(HandType::HighCard),
            1 => Some(HandType::Pair),
            2 => Some(HandType::TwoPair),
            3 => Some(HandType::ThreeOfAKind),
            4 => Some(HandType::Straight),
            5 => Some(HandType::Flush),
            6 => Some(HandType::FullHouse),
            7 => Some(HandType::FourOfAKind),
            8 => Some(HandType::StraightFlush),
            9 => Some(HandType::RoyalFlush),
            _ => None,
        }
    }

    /// Whether five cards, sorted by rank, are a straight flush from Ten to Ace.
    pub fn is_royal_flush(cards: &[Card]) -> (r: bool)
        requires
            cards@.len() == 5,
            rank_sorted(cards@),
        ensures
            r == (is_straight(ranks_of(cards@)) && same_suit(cards@) && rank_value(cards@[0].num)
                == 8),
    {
        Self::is_strait_flush(cards) && cards[0].num == CardNum::Ten
    }

    /// Whether five cards, sorted by rank, are a straight of one suit.
    pub fn is_strait_flush(cards: &[Card]) -> (r: bool)
        requires
            cards@.len() == 5,
            rank_sorted(cards@),
        ensures
            r == (is_straight(ranks_of(cards@)) && same_suit(cards@)),
    {
        Self::is_strait(cards) && Self::is_flush(cards)
    }

    /// Whether five cards share one suit.
    pub fn is_flush(cards: &[Card]) -> (r: bool)
        requires
            cards@.len() == 5,
        ensures
            r == same_suit(cards@),
    {
        let r = cards[0].suit == cards[1].suit && cards[1].suit == cards[2].suit && cards[2].suit
            == cards[3].suit && cards[3].suit == cards[4].suit;
        proof {
            if !r {
                if cards@[1].suit != cards@[0].suit {
                    assert(!(cards@[1].suit == cards@[0].suit));
                } else if cards@[2].suit != cards@[0].suit {
                    assert(!(cards@[2].suit == cards@[0].suit));
                } else if cards@[3].suit != cards@[0].suit {
                    assert(!(cards@[3].suit == cards@[0].suit));
                } else {
                    assert(!(cards@[4].suit == cards@[0].suit));
                }
            }
        }
        r
    }

    /// Whether five cards, sorted by rank, have five consecutive ranks, or are the wheel
    /// (Two to Five with an Ace).
    pub fn is_strait(cards: &[Card]) -> (r: bool)
        requires
            cards@.len() == 5,
            rank_sorted(cards@),
        ensures
            r == is_straight(ranks_of(cards@)),
    {
        let c = cards;
        let run = c[0].num.is_next(&c[1].num) && c[1].num.is_next(&c[2].num) && c[2].num.is_next(
            &c[3].num,
        ) && c[3].num.is_next(&c[4].num);
        let r = if !run && c[4].num == CardNum::Ace && c[0].num == CardNum::Two {
            c[0].num.is_next(&c[1].num) && c[1].num.is_next(&c[2].num) && c[2].num.is_next(
                &c[3].num,
            )
        } else {
            run
        };
        proof {
            let rs = ranks_of(cards@);
            assert(rank_value(cards@[0].num) <= rank_value(cards@[1].num));
            assert(rank_value(cards@[1].num) <= rank_value(cards@[2].num));
            assert(rank_value(cards@[2].num) <= rank_value(cards@[3].num));
            assert(rank_value(cards@[3].num) <= rank_value(cards@[4].num));
            assert(rs[0] == rank_value(cards@[0].num));
            assert(rs[1] == rank_value(cards@[1].num));
            assert(rs[2] == rank_value(cards@[2].num));
            assert(rs[3] == rank_value(cards@[3].num));
            assert(rs[4] == rank_value(cards@[4].num));
        }
        r
    }

    /// Whether five cards, sorted by rank, are three of one rank and two of another.
    pub fn is_full_house(cards: &[Card]) -> (r: bool)
        requires
            cards@.len() == 5,
        ensures
            r == is_full_house(ranks_of(cards@)),
    {
        (cards[0].num == cards[1].num && cards[1].num == cards[2].num && cards[3].num
            == cards[4].num) || (cards[0].num == cards[1].num && cards[2].num == cards[3].num
            && cards[3].num == cards[4].num)
    }

    /// For five cards sorted by rank that hold four of a kind: the rank of the four, then
    /// the kicker.
    pub fn four_of_a_kind(cards: &[Card]) -> (r: Option<heapless::Vec<CardNum, 5>>)
        requires
            cards@.len() == 5,
        ensures
            r is Some <==> is_four(ranks_of(cards@)),
            r matches Some(v) ==> key_ranks(v) == key_four(ranks_of(cards@)),
    {
        let c = cards;
        if c[0].num == c[1].num && c[1].num == c[2].num && c[2].num == c[3].num {
            let v = key_from([c[0].num, c[4].num].as_slice());
            assert(key_ranks(v) =~= key_four(ranks_of(cards@)));
            return Some(v);
        }
        if c[3].num == c[4].num && c[1].num == c[2].num && c[2].num == c[3].num {
            let v = key_from([c[4].num, c[0].num].as_slice());
            assert(key_ranks(v) =~= key_four(ranks_of(cards@)));
            return Some(v);
        }
        None
    }

    /// For five cards sorted by rank that hold three of a kind: the rank of the three,
    /// then the two kickers, highest first.
    pub fn three_of_a_kind(cards: &[Card]) -> (r: Option<heapless::Vec<CardNum, 5>>)
        requires
            cards@.len() == 5,
            rank_sorted(cards@),
        ensures
            r is Some <==> is_three(ranks_of(cards@)),
            r matches Some(v) ==> key_ranks(v) == key_three(ranks_of(cards@)),
    {
        let c = cards;
        let e01 = c[0].num == c[1].num;
        let e12 = c[1].num == c[2].num;
        let e23 = c[2].num == c[3].num;
        let e34 = c[3].num == c[4].num;
        if (e01 && e12) || (e12 && e23) || (e23 && e34) {
            let v = if e01 && e12 {
                key_from([c[2].num, c[4].num, c[3].num].as_slice())
            } else if e12 && e23 {
                key_from([c[2].num, c[4].num, c[0].num].as_slice())
            } else {
                key_from([c[2].num, c[1].num, c[0].num].as_slice())
            };
            proof {
                assert(rank_value(cards@[0].num) <= rank_value(cards@[1].num));
                assert(rank_value(cards@[1].num) <= rank_value(cards@[2].num));
                assert(rank_value(cards@[2].num) <= rank_value(cards@[3].num));
                crate::card::lemma_rank_at_value(cards@[0].num);
                crate::card::lemma_rank_at_value(cards@[1].num);
                crate::card::lemma_rank_at_value(cards@[2].num);
                crate::card::lemma_rank_at_value(cards@[3].num);
                assert(key_ranks(v) =~= key_three(ranks_of(cards@)));
            }
            Some(v)
        } else {
            None
        }
    }

    /// For five cards sorted by rank that hold two pairs: the higher pair, the lower pair,
    /// then the kicker.
    pub fn two_pair(cards: &[Card]) -> (r: Option<heapless::Vec<CardNum, 5>>)
        requires
            cards@.len() == 5,
        ensures
            r is Some <==> is_two_pair(ranks_of(cards@)),
            r matches Some(v) ==> key_ranks(v) == key_two_pair(ranks_of(cards@)),
    {
        let c = cards;
        if c[0].num == c[1].num && c[2].num == c[3].num {
            let v = key_from([c[2].num, c[0].num, c[4].num].as_slice());
            assert(key_ranks(v) =~= key_two_pair(ranks_of(cards@)));
            return Some(v);
        }
        if c[0].num == c[1].num && c[3].num == c[4].num {
            let v = key_from([c[3].num, c[0].num, c[2].num].as_slice());
            assert(key_ranks(v) =~= key_two_pair(ranks_of(cards@)));
            return Some(v);
        }
        if c[1].num == c[2].num && c[3].num == c[4].num {
            let v = key_from([c[3].num, c[1].num, c[0].num].as_slice());
            assert(key_ranks(v) =~= key_two_pair(ranks_of(cards@)));
            return Some(v);
        }
        None
    }

    /// For five cards sorted by rank that hold a pair: the rank of the pair, then the
    /// three kickers, highest first.
    pub fn pair(cards: &[Card]) -> (r: Option<heapless::Vec<CardNum, 5>>)
        requires
            cards@.len() == 5,
        ensures
            r is Some <==> is_pair(ranks_of(cards@)),
            r matches Some(v) ==> key_ranks(v) == key_pair(ranks_of(cards@)),
    {
        let c = cards;
        if c[0].num == c[1].num {
            let v = key_from([c[0].num, c[4].num, c[3].num, c[2].num].as_slice());
            assert(key_ranks(v) =~= key_pair(ranks_of(cards@)));
            return Some(v);
        }
        if c[1].num == c[2].num {
            let v = key_from([c[1].num, c[4].num, c[3].num, c[0].num].as_slice());
            assert(key_ranks(v) =~= key_pair(ranks_of(cards@)));
            return Some(v);
        }
        if c[2].num == c[3].num {
            let v = key_from([c[2].num, c[4].num, c[1].num, c[0].num].as_slice());
            assert(key_ranks(v) =~= key_pair(ranks_of(cards@)));
            return Some(v);
        }
        if c[3].num == c[4].num {
            let v = key_from([c[3].num, c[2].num, c[1].num, c[0].num].as_slice());
            assert(key_ranks(v) =~= key_pair(ranks_of(cards@)));
            return Some(v);
        }
        None
    }
}

/// All five ranks of cards sorted by rank, highest first; the wheel counts Five high,
/// its Ace last.
fn descending_key(c: &[Card]) -> (r: heapless::Vec<CardNum, 5>)
    requires
        c@.len() == 5,
        rank_sorted(c@),
    ensures
        key_ranks(r) == descending(ranks_of(c@)),
{
    let wheel = c[0].num == CardNum::Two && c[1].num == CardNum::Three && c[2].num
        == CardNum::Four && c[3].num == CardNum::Five && c[4].num == CardNum::Ace;
    let v = if wheel {
        key_from([c[3].num, c[2].num, c[1].num, c[0].num, c[4].num].as_slice())
    } else {
        key_from([c[4].num, c[3].num, c[2].num, c[1].num, c[0].num].as_slice())
    };
    proof {
        let r = ranks_of(c@);
        crate::card::lemma_rank_at_value(c@[0].num);
        crate::card::lemma_rank_at_value(c@[1].num);
        crate::card::lemma_rank_at_value(c@[2].num);
        crate::card::lemma_rank_at_value(c@[3].num);
        crate::card::lemma_rank_at_value(c@[4].num);
        assert(wheel == is_wheel(r));
        assert(key_ranks(v) =~= descending(r));
    }
    v
}

/// Classifies five cards: their category, their tie-break key, and the cards as given.
/// The cards are first sorted by rank, so their order does not matter.
pub fn calc_hand(cards: &[Card]) -> (r: Hand)
    requires
        cards@.len() == 5,
    ensures
        r.category() == hand_category(cards@),
        r.key() == hand_key(cards@),
        r.card_seq() == cards@,
        r.wf(),
{
    let sorted = sort_by_rank(cards);
    let s = sorted.as_slice();
    proof {
        lemma_sorted_cards(s@, cards@);
        lemma_sorted_ranks(cards@);
        lemma_key_valid(sorted_ranks(cards@), same_suit(cards@));
    }
    let given = five_from_slice(cards).unwrap();
    let (hand, key) = if HandType::is_royal_flush(s) {
        (HandType::RoyalFlush, ranks_new())
    } else if HandType::is_strait_flush(s) {
        (HandType::StraightFlush, descending_key(s))
    } else if let Some(k) = HandType::four_of_a_kind(s) {
        (HandType::FourOfAKind, k)
    } else if HandType::is_full_house(s) {
        (HandType::FullHouse, descending_key(s))
    } else if HandType::is_flush(s) {
        (HandType::Flush, descending_key(s))
    } else if HandType::is_strait(s) {
        (HandType::Straight, descending_key(s))
    } else if let Some(k) = HandType::three_of_a_kind(s) {
        (HandType::ThreeOfAKind, k)
    } else if let Some(k) = HandType::two_pair(s) {
        (HandType::TwoPair, k)
    } else if let Some(k) = HandType::pair(s) {
        (HandType::Pair, k)
    } else {
        (HandType::HighCard, descending_key(s))
    };
    proof {
        assert(key_ranks(key) =~= hand_key(cards@));
    }
    Hand { hand, hand_cmp_cards: key, cards: given }
}

/// The order of two hands: by category, then by tie-break key.
pub open spec fn hand_cmp(a: &Hand, b: &Hand) -> Option<core::cmp::Ordering> {
    if hand_less(a.category(), a.key(), b.category(), b.key()) {
        Some(core::cmp::Ordering::Less)
    } else if hand_less(b.category(), b.key(), a.category(), a.key()) {
        Some(core::cmp::Ordering::Greater)
    } else {
        Some(core::cmp::Ordering::Equal)
    }
}

impl PartialEq for Hand {
    fn eq(&self, other: &Hand) -> (r: bool)
        ensures
            r == (self.category() == other.category() && self.key() == other.key()),
    {
        proof {
            lemma_key_view(self);
            lemma_key_view(other);
        }
        if self.hand != other.hand {
            return false;
        }
        let a = ranks_slice(&self.hand_cmp_cards);
        let b = ranks_slice(&other.hand_cmp_cards);
        if a.len() != b.len() {
            return false;
        }
        let mut i: usize = 0;
        while i < a.len()
            invariant
                a@.len() == b@.len(),
                0 <= i <= a@.len(),
                forall|j: int| 0 <= j < i ==> a@[j] == b@[j],
                a@.map_values(|n: CardNum| rank_value(n)) == self.key(),
                b@.map_values(|n: CardNum| rank_value(n)) == other.key(),
            decreases a@.len() - i,
        {
            if a[i] != b[i] {
                proof {
                    crate::card::lemma_rank_at_value(a@[i as int]);
                    crate::card::lemma_rank_at_value(b@[i as int]);
                    assert(self.key()[i as int] == rank_value(a@[i as int]));
                    assert(other.key()[i as int] == rank_value(b@[i as int]));
                }
                return false;
            }
            i = i + 1;
        }
        assert(a@ =~= b@);
        true
    }
}

impl vstd::std_specs::cmp::PartialEqSpecImpl for Hand {
    open spec fn obeys_eq_spec() -> bool {
        true
    }

    open spec fn eq_spec(&self, other: &Hand) -> bool {
        self.category() == other.category() && self.key() == other.key()
    }
}

impl PartialOrd for Hand {
    fn partial_cmp(&self, other: &Hand) -> (r: Option<core::cmp::Ordering>)
        ensures
            r == hand_cmp(self, other),
    {
        proof {
            lemma_key_view(self);
            lemma_key_view(other);
        }
        let x = self.hand.index();
        let y = other.hand.index();
        if x < y {
            return Some(core::cmp::Ordering::Less);
        }
        if x > y {
            return Some(core::cmp::Ordering::Greater);
        }
        let a = ranks_slice(&self.hand_cmp_cards);
        let b = ranks_slice(&other.hand_cmp_cards);
        assert(self.category() == other.category());
        let ghost ka = self.key();
        let ghost kb = other.key();
        let mut i: usize = 0;
        assert(ka.skip(0) =~= ka);
        assert(kb.skip(0) =~= kb);
        while i < a.len() && i < b.len()
            invariant
                a@.map_values(|n: CardNum| rank_value(n)) == ka,
                b@.map_values(|n: CardNum| rank_value(n)) == kb,
                0 <= i <= a@.len(),
                i <= b@.len(),
                forall|j: int| 0 <= j < i ==> ka[j] == kb[j],
                self.category() == other.category(),
                ka == self.key(),
                kb == other.key(),
                lex_less(ka, kb) == lex_less(ka.skip(i as int), kb.skip(i as int)),
                lex_less(kb, ka) == lex_less(kb.skip(i as int), ka.skip(i as int)),
            decreases a@.len() - i,
        {
            let u = a[i].value();
            let v = b[i].value();
            assert(ka.skip(i as int)[0] == u);
            assert(kb.skip(i as int)[0] == v);
            if u < v {
                return Some(core::cmp::Ordering::Less);
            }
            if u > v {
                return Some(core::cmp::Ordering::Greater);
            }
            assert(ka.skip(i as int).drop_first() =~= ka.skip(i + 1));
            assert(kb.skip(i as int).drop_first() =~= kb.skip(i + 1));
            i = i + 1;
        }
        assert(ka.skip(i as int).len() == 0 || kb.skip(i as int).len() == 0);
        Some(core::cmp::Ordering::Equal)
    }
}

impl vstd::std_specs::cmp::PartialOrdSpecImpl for Hand {
    open spec fn obeys_partial_cmp_spec() -> bool {
        true
    }

    open spec fn partial_cmp_spec(&self, other: &Hand) -> Option<core::cmp::Ordering> {
        hand_cmp(self, other)
    }
}

} // verus!
