//! What a five-card hand is worth: its category and tie-break key, stated over the
//! ranks of its cards sorted ascending, and the order on hands.
use vstd::prelude::*;
use vstd::relations::{sorted_by, total_ordering};
use vstd::seq_lib::lemma_sorted_unique;

use crate::card::{rank_value, Card};

verus! {

broadcast use vstd::seq_lib::group_to_multiset_ensures;

/// The ten hand categories, weakest first.
#[derive(Debug, Clone, Copy, PartialEq, Eq, Structural, PartialOrd, Ord, Hash)]
pub enum HandType {
    HighCard,
    Pair,
    TwoPair,
    ThreeOfAKind,
    Straight,
    Flush,
    FullHouse,
    FourOfAKind,
    StraightFlush,
    RoyalFlush,
}

/// Position of a category in the order of strength, from 0 (high card) to 9 (royal flush).
pub open spec fn category_value(t: HandType) -> int {
    match t {
        HandType::HighCard => 0,
        HandType::Pair => 1,
        HandType::TwoPair => 2,
        HandType::ThreeOfAKind => 3,
        HandType::Straight => 4,
        HandType::Flush => 5,
        HandType::FullHouse => 6,
        HandType::FourOfAKind => 7,
        HandType::StraightFlush => 8,
        HandType::RoyalFlush => 9,
    }
}

/// Length of the tie-break key of each category.
pub open spec fn key_len(t: HandType) -> int {
    match t {
        HandType::RoyalFlush => 0,
        HandType::FourOfAKind => 2,
        HandType::ThreeOfAKind => 3,
        HandType::TwoPair => 3,
        HandType::Pair => 4,
        _ => 5,
    }
}

pub open spec fn int_leq() -> spec_fn(int, int) -> bool {
    |a: int, b: int| a <= b
}

/// The ranks of the cards, in the cards' order.
pub open spec fn ranks_of(cs: Seq<Card>) -> Seq<int> {
    cs.map_values(|c: Card| rank_value(c.num))
}

/// The ranks of the cards, sorted ascending.
pub open spec fn sorted_ranks(cs: Seq<Card>) -> Seq<int> {
    ranks_of(cs).sort_by(int_leq())
}

/// All the cards share one suit.
pub open spec fn same_suit(cs: Seq<Card>) -> bool {
    forall|i: int| 0 <= i < cs.len() ==> #[trigger] cs[i].suit == cs[0].suit
}

/// Five ascending ranks, each one above the one before.
pub open spec fn is_run(r: Seq<int>) -> bool {
    r[1] == r[0] + 1 && r[2] == r[1] + 1 && r[3] == r[2] + 1 && r[4] == r[3] + 1
}

/// The wheel: Two, Three, Four, Five and Ace, the Ace playing low.
pub open spec fn is_wheel(r: Seq<int>) -> bool {
    r[0] == 0 && r[1] == 1 && r[2] == 2 && r[3] == 3 && r[4] == 12
}

pub open spec fn is_straight(r: Seq<int>) -> bool {
    is_run(r) || is_wheel(r)
}

pub open spec fn is_four(r: Seq<int>) -> bool {
    (r[0] == r[1] && r[1] == r[2] && r[2] == r[3]) || (r[1] == r[2] && r[2] == r[3] && r[3]
        == r[4])
}

pub open spec fn is_full_house(r: Seq<int>) -> bool {
    (r[0] == r[1] && r[1] == r[2] && r[3] == r[4]) || (r[0] == r[1] && r[2] == r[3] && r[3]
        == r[4])
}

pub open spec fn is_three(r: Seq<int>) -> bool {
    (r[0] == r[1] && r[1] == r[2]) || (r[1] == r[2] && r[2] == r[3]) || (r[2] == r[3] && r[3]
        == r[4])
}

pub open spec fn is_two_pair(r: Seq<int>) -> bool {
    (r[0] == r[1] && r[2] == r[3]) || (r[0] == r[1] && r[3] == r[4]) || (r[1] == r[2] && r[3]
        == r[4])
}

pub open spec fn is_pair(r: Seq<int>) -> bool {
    r[0] == r[1] || r[1] == r[2] || r[2] == r[3] || r[3] == r[4]
}

/// The category of five cards whose ranks, sorted ascending, are `r`; `flush` tells
/// whether they share a suit. The first test that holds decides.
pub open spec fn category_of(r: Seq<int>, flush: bool) -> HandType {
    if is_straight(r) && flush && r[0] == 8 {
        HandType::RoyalFlush
    } else if is_straight(r) && flush {
        HandType::StraightFlush
    } else if is_four(r) {
        HandType::FourOfAKind
    } else if is_full_house(r) {
        HandType::FullHouse
    } else if flush {
        HandType::Flush
    } else if is_straight(r) {
        HandType::Straight
    } else if is_three(r) {
        HandType::ThreeOfAKind
    } else if is_two_pair(r) {
        HandType::TwoPair
    } else if is_pair(r) {
        HandType::Pair
    } else {
        HandType::HighCard
    }
}

/// All five ranks, highest first; for the wheel, Five high with the Ace last.
pub open spec fn descending(r: Seq<int>) -> Seq<int> {
    if is_wheel(r) {
        seq![r[3], r[2], r[1], r[0], r[4]]
    } else {
        seq![r[4], r[3], r[2], r[1], r[0]]
    }
}

/// Key of four of a kind: the rank of the four, then the kicker.
pub open spec fn key_four(r: Seq<int>) -> Seq<int> {
    if r[0] == r[3] {
        seq![r[0], r[4]]
    } else {
        seq![r[4], r[0]]
    }
}

/// Key of three of a kind: the rank of the three, then the two kickers, highest first.
pub open spec fn key_three(r: Seq<int>) -> Seq<int> {
    if r[0] == r[2] {
        seq![r[2], r[4], r[3]]
    } else if r[1] == r[3] {
        seq![r[2], r[4], r[0]]
    } else {
        seq![r[2], r[1], r[0]]
    }
}

/// Key of two pair: the higher pair, the lower pair, then the kicker.
pub open spec fn key_two_pair(r: Seq<int>) -> Seq<int> {
    if r[0] == r[1] && r[2] == r[3] {
        seq![r[2], r[0], r[4]]
    } else if r[0] == r[1] && r[3] == r[4] {
        seq![r[3], r[0], r[2]]
    } else {
        seq![r[3], r[1], r[0]]
    }
}

/// Key of a pair: the rank of the pair, then the three kickers, highest first.
pub open spec fn key_pair(r: Seq<int>) -> Seq<int> {
    if r[0] == r[1] {
        seq![r[0], r[4], r[3], r[2]]
    } else if r[1] == r[2] {
        seq![r[1], r[4], r[3], r[0]]
    } else if r[2] == r[3] {
        seq![r[2], r[4], r[1], r[0]]
    } else {
        seq![r[3], r[2], r[1], r[0]]
    }
}

/// The tie-break key of five cards whose ranks, sorted ascending, are `r`.
pub open spec fn key_of(r: Seq<int>, flush: bool) -> Seq<int> {
    match category_of(r, flush) {
        HandType::RoyalFlush => seq![],
        HandType::FourOfAKind => key_four(r),
        HandType::ThreeOfAKind => key_three(r),
        HandType::TwoPair => key_two_pair(r),
        HandType::Pair => key_pair(r),
        _ => descending(r),
    }
}

/// The category of five cards.
pub open spec fn hand_category(cs: Seq<Card>) -> HandType {
    category_of(sorted_ranks(cs), same_suit(cs))
}

/// The tie-break key of five cards.
pub open spec fn hand_key(cs: Seq<Card>) -> Seq<int> {
    key_of(sorted_ranks(cs), same_suit(cs))
}

/// `a` comes before `b` in lexicographic order.
pub open spec fn lex_less(a: Seq<int>, b: Seq<int>) -> bool
    decreases a.len(),
{
    if a.len() == 0 || b.len() == 0 {
        false
    } else if a[0] != b[0] {
        a[0] < b[0]
    } else {
        lex_less(a.drop_first(), b.drop_first())
    }
}

/// The hand (`c1`, `k1`) is weaker than the hand (`c2`, `k2`): by category, then by key.
pub open spec fn hand_less(c1: HandType, k1: Seq<int>, c2: HandType, k2: Seq<int>) -> bool {
    category_value(c1) < category_value(c2) || (c1 == c2 && lex_less(k1, k2))
}

/// A category and a key that classification can give: the key has its category's
/// length and holds ranks.
pub open spec fn valid_score(c: HandType, k: Seq<int>) -> bool {
    k.len() == key_len(c) && forall|i: int| 0 <= i < k.len() ==> 0 <= #[trigger] k[i] < 13
}

pub open spec fn pow13(n: nat) -> int
    decreases n,
{
    if n == 0 {
        1
    } else {
        13 * pow13((n - 1) as nat)
    }
}

/// The key read as a number in base 13, first rank most significant.
pub open spec fn key_number(k: Seq<int>) -> int
    decreases k.len(),
{
    if k.len() == 0 {
        0
    } else {
        k[0] * pow13((k.len() - 1) as nat) + key_number(k.drop_first())
    }
}

pub proof fn lemma_key_number_push(k: Seq<int>, x: int)
    ensures
        key_number(k.push(x)) == key_number(k) * 13 + x,
    decreases k.len(),
{
    if k.len() > 0 {
        let t = k.drop_first();
        assert(k.push(x).drop_first() =~= t.push(x));
        lemma_key_number_push(t, x);
        let p = pow13((k.len() - 1) as nat);
        let kn = key_number(t);
        assert(pow13(k.len()) == 13 * p);
        assert(k.push(x)[0] == k[0]);
        assert(key_number(k.push(x)) == k[0] * pow13(k.len()) + key_number(t.push(x)));
        assert(key_number(k) == k[0] * p + kn);
        assert((k[0] * p + kn) * 13 + x == k[0] * (13 * p) + kn * 13 + x) by (nonlinear_arith);
        assert(key_number(t.push(x)) == kn * 13 + x);
    } else {
        assert(k.push(x).drop_first() =~= Seq::<int>::empty());
        assert(k.push(x)[0] == x);
        assert(pow13(0) == 1);
        assert(key_number(Seq::<int>::empty()) == 0);
        assert(key_number(k) == 0);
        assert(key_number(k.push(x)) == x * pow13(0) + key_number(k.push(x).drop_first()));
    }
}

/// A single number that orders hands as they are ordered by category and key.
pub open spec fn strength(c: HandType, k: Seq<int>) -> int {
    category_value(c) * pow13(5) + key_number(k)
}

pub proof fn lemma_pow13_positive(n: nat)
    ensures
        pow13(n) >= 1,
    decreases n,
{
    if n > 0 {
        lemma_pow13_positive((n - 1) as nat);
    }
}

pub proof fn lemma_pow13_five()
    ensures
        pow13(5) == 371293,
{
    assert(pow13(0) == 1);
    assert(pow13(1) == 13);
    assert(pow13(2) == 169);
    assert(pow13(3) == 2197);
    assert(pow13(4) == 28561);
}

pub proof fn lemma_pow13_monotone(m: nat, n: nat)
    requires
        m <= n,
    ensures
        pow13(m) <= pow13(n),
    decreases n,
{
    if m < n {
        lemma_pow13_monotone(m, (n - 1) as nat);
        lemma_pow13_positive((n - 1) as nat);
    }
}

pub proof fn lemma_key_number_bound(k: Seq<int>)
    requires
        forall|i: int| 0 <= i < k.len() ==> 0 <= #[trigger] k[i] < 13,
    ensures
        0 <= key_number(k) < pow13(k.len()),
    decreases k.len(),
{
    if k.len() > 0 {
        let t = k.drop_first();
        assert forall|i: int| 0 <= i < t.len() implies 0 <= #[trigger] t[i] < 13 by {
            assert(t[i] == k[i + 1]);
        }
        lemma_key_number_bound(t);
        let p = pow13((k.len() - 1) as nat);
        lemma_pow13_positive((k.len() - 1) as nat);
        assert(0 <= k[0] * p <= 12 * p) by (nonlinear_arith)
            requires
                0 <= k[0] < 13,
                p >= 1,
        ;
    }
}

pub proof fn lemma_lex_number(a: Seq<int>, b: Seq<int>)
    requires
        a.len() == b.len(),
        forall|i: int| 0 <= i < a.len() ==> 0 <= #[trigger] a[i] < 13,
        forall|i: int| 0 <= i < b.len() ==> 0 <= #[trigger] b[i] < 13,
        lex_less(a, b),
    ensures
        key_number(a) < key_number(b),
    decreases a.len(),
{
    let ta = a.drop_first();
    let tb = b.drop_first();
    assert forall|i: int| 0 <= i < ta.len() implies 0 <= #[trigger] ta[i] < 13 by {
        assert(ta[i] == a[i + 1]);
    }
    assert forall|i: int| 0 <= i < tb.len() implies 0 <= #[trigger] tb[i] < 13 by {
        assert(tb[i] == b[i + 1]);
    }
    let p = pow13((a.len() - 1) as nat);
    if a[0] != b[0] {
        lemma_key_number_bound(ta);
        lemma_key_number_bound(tb);
        let x = key_number(ta);
        let y = key_number(tb);
        assert(a[0] * p + x < b[0] * p + y) by (nonlinear_arith)
            requires
                a[0] < b[0],
                0 <= x < p,
                0 <= y,
        ;
    } else {
        lemma_lex_number(ta, tb);
    }
}

pub proof fn lemma_lex_trichotomy(a: Seq<int>, b: Seq<int>)
    requires
        a.len() == b.len(),
    ensures
        a == b || lex_less(a, b) || lex_less(b, a),
        !(lex_less(a, b) && lex_less(b, a)),
        !lex_less(a, a),
    decreases a.len(),
{
    if a.len() > 0 {
        lemma_lex_trichotomy(a.drop_first(), b.drop_first());
        lemma_lex_trichotomy(a.drop_first(), a.drop_first());
        if a[0] == b[0] && a.drop_first() == b.drop_first() {
            assert forall|i: int| 0 <= i < a.len() implies a[i] == b[i] by {
                if i > 0 {
                    assert(a[i] == a.drop_first()[i - 1]);
                    assert(b[i] == b.drop_first()[i - 1]);
                }
            }
            assert(a =~= b);
        }
    } else {
        assert(a =~= b);
    }
}

pub proof fn lemma_lex_transitive(a: Seq<int>, b: Seq<int>, c: Seq<int>)
    requires
        a.len() == b.len(),
        b.len() == c.len(),
        lex_less(a, b),
        lex_less(b, c),
    ensures
        lex_less(a, c),
    decreases a.len(),
{
    if a[0] == b[0] && b[0] == c[0] {
        lemma_lex_transitive(a.drop_first(), b.drop_first(), c.drop_first());
    }
}

/// For hands that classification can give, the strength number orders them exactly as
/// the order by category and key does, and ties exactly when they are equal.
pub proof fn lemma_strength_order(c1: HandType, k1: Seq<int>, c2: HandType, k2: Seq<int>)
    requires
        valid_score(c1, k1),
        valid_score(c2, k2),
    ensures
        hand_less(c1, k1, c2, k2) <==> strength(c1, k1) < strength(c2, k2),
        (c1 == c2 && k1 == k2) <==> strength(c1, k1) == strength(c2, k2),
{
    lemma_key_number_bound(k1);
    lemma_key_number_bound(k2);
    lemma_pow13_monotone(k1.len(), 5);
    lemma_pow13_monotone(k2.len(), 5);
    let p = pow13(5);
    let x = key_number(k1);
    let y = key_number(k2);
    let u = category_value(c1);
    let v = category_value(c2);
    if u < v {
        assert(u * p + x < v * p + y) by (nonlinear_arith)
            requires
                u < v,
                0 <= x < p,
                0 <= y,
        ;
    } else if u > v {
        assert(v * p + y < u * p + x) by (nonlinear_arith)
            requires
                v < u,
                0 <= y < p,
                0 <= x,
        ;
    } else {
        assert(c1 == c2);
        lemma_lex_trichotomy(k1, k2);
        if lex_less(k1, k2) {
            lemma_lex_number(k1, k2);
        } else if lex_less(k2, k1) {
            lemma_lex_number(k2, k1);
        }
    }
}

/// Hands are totally ordered: of two hands that classification can give, exactly one of
/// "weaker", "equal" and "stronger" holds, and "weaker" is transitive.
pub proof fn lemma_hand_order_total(
    c1: HandType,
    k1: Seq<int>,
    c2: HandType,
    k2: Seq<int>,
    c3: HandType,
    k3: Seq<int>,
)
    requires
        valid_score(c1, k1),
        valid_score(c2, k2),
        valid_score(c3, k3),
    ensures
        hand_less(c1, k1, c2, k2) || (c1 == c2 && k1 == k2) || hand_less(c2, k2, c1, k1),
        !(hand_less(c1, k1, c2, k2) && hand_less(c2, k2, c1, k1)),
        !hand_less(c1, k1, c1, k1),
        hand_less(c1, k1, c2, k2) && hand_less(c2, k2, c3, k3) ==> hand_less(c1, k1, c3, k3),
{
    lemma_strength_order(c1, k1, c2, k2);
    lemma_strength_order(c2, k2, c3, k3);
    lemma_strength_order(c1, k1, c3, k3);
    lemma_strength_order(c1, k1, c1, k1);
    lemma_strength_order(c2, k2, c1, k1);
}

/// Sorted ranks of five cards are five ranks.
pub proof fn lemma_sorted_ranks(cs: Seq<Card>)
    ensures
        sorted_ranks(cs).len() == cs.len(),
        sorted_by(sorted_ranks(cs), int_leq()),
        sorted_ranks(cs).to_multiset() == ranks_of(cs).to_multiset(),
        forall|i: int| 0 <= i < cs.len() ==> 0 <= #[trigger] sorted_ranks(cs)[i] < 13,
{
    lemma_int_leq_total();
    ranks_of(cs).lemma_sort_by_ensures(int_leq());
    let s = sorted_ranks(cs);
    assert(s.len() == s.to_multiset().len());
    assert(ranks_of(cs).len() == ranks_of(cs).to_multiset().len());
    assert forall|i: int| 0 <= i < cs.len() implies 0 <= #[trigger] s[i] < 13 by {
        assert(s.to_multiset().count(s[i]) > 0);
        assert(ranks_of(cs).contains(s[i]));
        let j = choose|j: int| 0 <= j < cs.len() && ranks_of(cs)[j] == s[i];
        crate::card::lemma_rank_at_value(cs[j].num);
    }
}

pub proof fn lemma_int_leq_total()
    ensures
        total_ordering(int_leq()),
{
}

/// Classification gives a key of its category's length, made of ranks.
pub proof fn lemma_key_valid(r: Seq<int>, flush: bool)
    requires
        r.len() == 5,
        forall|i: int| 0 <= i < 5 ==> 0 <= #[trigger] r[i] < 13,
    ensures
        valid_score(category_of(r, flush), key_of(r, flush)),
{
}

/// The ranks of a sequence of cards that is sorted by rank are the sorted ranks.
pub proof fn lemma_sorted_cards(s: Seq<Card>, cs: Seq<Card>)
    requires
        s.to_multiset() == cs.to_multiset(),
        forall|i: int, j: int|
            0 <= i < j < s.len() ==> rank_value(#[trigger] s[i].num) <= rank_value(
                #[trigger] s[j].num,
            ),
    ensures
        ranks_of(s) == sorted_ranks(cs),
        same_suit(s) == same_suit(cs),
{
    lemma_map_multiset(s, cs);
    lemma_sorted_ranks(cs);
    lemma_int_leq_total();
    assert(sorted_by(ranks_of(s), int_leq()));
    lemma_sorted_unique(ranks_of(s), sorted_ranks(cs), int_leq());
    if same_suit(s) {
        lemma_same_suit_multiset(s, cs);
    }
    if same_suit(cs) {
        lemma_same_suit_multiset(cs, s);
    }
}

proof fn lemma_same_suit_multiset(a: Seq<Card>, b: Seq<Card>)
    requires
        a.to_multiset() == b.to_multiset(),
        same_suit(a),
    ensures
        same_suit(b),
{
    assert forall|i: int| 0 <= i < b.len() implies #[trigger] b[i].suit == b[0].suit by {
        assert(b.to_multiset().count(b[i]) > 0);
        assert(b.to_multiset().count(b[0]) > 0);
        assert(a.contains(b[i]));
        assert(a.contains(b[0]));
    }
}

/// Reordering cards reorders their ranks.
pub proof fn lemma_map_multiset(a: Seq<Card>, b: Seq<Card>)
    requires
        a.to_multiset() == b.to_multiset(),
    ensures
        ranks_of(a).to_multiset() == ranks_of(b).to_multiset(),
    decreases a.len(),
{
    broadcast use vstd::multiset::group_multiset_axioms;

    if a.len() == 0 {
        assert(a.to_multiset().len() == 0);
        assert(b.len() == b.to_multiset().len());
        assert(ranks_of(a) =~= ranks_of(b));
    } else {
        let x = a.last();
        let a0 = a.drop_last();
        assert(a0.push(x) =~= a);
        assert(b.to_multiset().count(x) > 0);
        let k = choose|k: int| 0 <= k < b.len() && b[k] == x;
        let b0 = b.remove(k);
        assert(b0.to_multiset() =~= a0.to_multiset());
        lemma_map_multiset(a0, b0);
        assert(ranks_of(a) =~= ranks_of(a0).push(rank_value(x.num)));
        assert(ranks_of(b0) =~= ranks_of(b).remove(k));
        assert(ranks_of(b)[k] == rank_value(x.num));
        assert(ranks_of(b).to_multiset() =~= ranks_of(b0).to_multiset().insert(
            rank_value(x.num),
        ));
    }
}

/// Classifying five cards does not depend on their order: any reordering gets the same
/// category and the same tie-break key.
pub proof fn lemma_reorder_invariant(cs1: Seq<Card>, cs2: Seq<Card>)
    requires
        cs1.to_multiset() == cs2.to_multiset(),
    ensures
        hand_category(cs1) == hand_category(cs2),
        hand_key(cs1) == hand_key(cs2),
{
    lemma_map_multiset(cs1, cs2);
    lemma_sorted_ranks(cs1);
    lemma_sorted_ranks(cs2);
    lemma_int_leq_total();
    lemma_sorted_unique(sorted_ranks(cs1), sorted_ranks(cs2), int_leq());
    if same_suit(cs1) {
        lemma_same_suit_multiset(cs1, cs2);
    }
    if same_suit(cs2) {
        lemma_same_suit_multiset(cs2, cs1);
    }
}

/// A royal flush beats every straight flush.
pub proof fn lemma_royal_beats_straight_flush(royal: Seq<Card>, other: Seq<Card>)
    requires
        hand_category(royal) == HandType::RoyalFlush,
        hand_category(other) == HandType::StraightFlush,
    ensures
        hand_less(hand_category(other), hand_key(other), hand_category(royal), hand_key(royal)),
        !hand_less(hand_category(royal), hand_key(royal), hand_category(other), hand_key(other)),
{
}

/// Categories are ordered as listed, each one beating every hand of a lower category.
pub proof fn lemma_category_order(a: Seq<Card>, b: Seq<Card>)
    requires
        category_value(hand_category(a)) < category_value(hand_category(b)),
    ensures
        hand_less(hand_category(a), hand_key(a), hand_category(b), hand_key(b)),
{
}

/// The wheel (Ace, Two, Three, Four, Five, not all of one suit) is a straight; it ranks
/// below the Six-high straight and above every high-card hand.
pub proof fn lemma_wheel_order(wheel: Seq<Card>, six: Seq<Card>, high: Seq<Card>)
    requires
        sorted_ranks(wheel) == seq![0int, 1, 2, 3, 12],
        !same_suit(wheel),
        sorted_ranks(six) == seq![0int, 1, 2, 3, 4],
        !same_suit(six),
        hand_category(high) == HandType::HighCard,
    ensures
        hand_category(wheel) == HandType::Straight,
        hand_category(six) == HandType::Straight,
        hand_less(hand_category(wheel), hand_key(wheel), hand_category(six), hand_key(six)),
        hand_less(hand_category(high), hand_key(high), hand_category(wheel), hand_key(wheel)),
{
    let w = sorted_ranks(wheel);
    let x = sorted_ranks(six);
    assert(is_wheel(w));
    assert(is_run(x));
    assert(hand_key(wheel) == seq![3int, 2, 1, 0, 12]);
    assert(hand_key(six) == seq![4int, 3, 2, 1, 0]);
}

/// The strength of a hand that classification can give lies in its category's band: from
/// the category's position times 13 to the fifth, up to the next multiple.
pub proof fn lemma_strength_range(c: HandType, k: Seq<int>)
    requires
        valid_score(c, k),
    ensures
        0 <= strength(c, k) < 10 * pow13(5),
        category_value(c) * pow13(5) <= strength(c, k) < (category_value(c) + 1) * pow13(5),
{
    lemma_key_number_bound(k);
    lemma_pow13_monotone(k.len(), 5);
    lemma_pow13_five();
    let v = category_value(c);
    let x = key_number(k);
    assert(0 <= v * 371293 + x < 10 * 371293) by (nonlinear_arith)
        requires
            0 <= v <= 9,
            0 <= x < 371293,
    ;
}

} // verus!
