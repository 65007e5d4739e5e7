//! The best five-card hand among seven cards.
use vstd::prelude::*;

use crate::card::Card;
use crate::hand::{calc_hand, Hand};
use crate::rules::{
    hand_category, hand_key, hand_less, lemma_hand_order_total, lemma_key_valid,
    lemma_sorted_ranks, valid_score, HandType,
};

verus! {

/// The five cards left when the cards at positions `i` and `j` (`i < j`) are set aside.
pub open spec fn drop_two(cs: Seq<Card>, i: int, j: int) -> Seq<Card> {
    cs.remove(j).remove(i)
}

/// (`c`, `k`) is weaker than the hand of the five cards left without positions `i` and `j`.
pub open spec fn below_subset(cs: Seq<Card>, c: HandType, k: Seq<int>, i: int, j: int) -> bool {
    hand_less(c, k, hand_category(drop_two(cs, i, j)), hand_key(drop_two(cs, i, j)))
}

/// (`c`, `k`) is the best hand among the five-card subsets of the seven cards: some
/// subset has it, and no subset beats it.
pub open spec fn is_best_of_seven(cs: Seq<Card>, c: HandType, k: Seq<int>) -> bool {
    &&& exists|i: int, j: int|
        0 <= i < j < 7 && #[trigger] hand_category(drop_two(cs, i, j)) == c && hand_key(
            drop_two(cs, i, j),
        ) == k
    &&& forall|i: int, j: int| 0 <= i < j < 7 ==> !#[trigger] below_subset(cs, c, k, i, j)
}

pub proof fn lemma_subset_valid(cs: Seq<Card>, i: int, j: int)
    requires
        cs.len() == 7,
        0 <= i < j < 7,
    ensures
        drop_two(cs, i, j).len() == 5,
        valid_score(hand_category(drop_two(cs, i, j)), hand_key(drop_two(cs, i, j))),
{
    let s = drop_two(cs, i, j);
    lemma_sorted_ranks(s);
    lemma_key_valid(crate::rules::sorted_ranks(s), crate::rules::same_suit(s));
}

/// The best hand of seven cards is unique: two hands that are both best are equal.
pub proof fn lemma_best_unique(cs: Seq<Card>, c1: HandType, k1: Seq<int>, c2: HandType, k2: Seq<int>)
    requires
        cs.len() == 7,
        is_best_of_seven(cs, c1, k1),
        is_best_of_seven(cs, c2, k2),
    ensures
        c1 == c2 && k1 == k2,
{
    let (i1, j1) = choose|i: int, j: int|
        0 <= i < j < 7 && #[trigger] hand_category(drop_two(cs, i, j)) == c1 && hand_key(
            drop_two(cs, i, j),
        ) == k1;
    let (i2, j2) = choose|i: int, j: int|
        0 <= i < j < 7 && #[trigger] hand_category(drop_two(cs, i, j)) == c2 && hand_key(
            drop_two(cs, i, j),
        ) == k2;
    lemma_subset_valid(cs, i1, j1);
    lemma_subset_valid(cs, i2, j2);
    assert(!below_subset(cs, c1, k1, i2, j2));
    assert(!below_subset(cs, c2, k2, i1, j1));
    lemma_hand_order_total(c1, k1, c2, k2, c1, k1);
}

/// The five cards of `cs` without positions `i` and `j`.
fn without_two(cs: &[Card], i: usize, j: usize) -> (r: [Card; 5])
    requires
        cs@.len() == 7,
        i < j < 7,
    ensures
        r@ == drop_two(cs@, i as int, j as int),
{
    let mut r: [Card; 5] = [cs[0], cs[0], cs[0], cs[0], cs[0]];
    let mut k: usize = 0;
    while k < 5
        invariant
            cs@.len() == 7,
            i < j < 7,
            0 <= k <= 5,
            r@.len() == 5,
            forall|m: int| 0 <= m < k ==> r@[m] == drop_two(cs@, i as int, j as int)[m],
        decreases 5 - k,
    {
        let src = if k < i {
            k
        } else if k + 1 < j {
            k + 1
        } else {
            k + 2
        };
        r[k] = cs[src];
        k = k + 1;
    }
    assert(r@ =~= drop_two(cs@, i as int, j as int));
    r
}

/// The best hand among the 21 five-card subsets of seven cards.
pub fn get_max_hand(origin_cards: &[Card]) -> (r: Hand)
    requires
        origin_cards@.len() == 7,
    ensures
        is_best_of_seven(origin_cards@, r.category(), r.key()),
        r.wf(),
        exists|i: int, j: int|
            0 <= i < j < 7 && r.card_seq() == #[trigger] drop_two(origin_cards@, i, j),
{
    let cs = origin_cards;
    let ghost s = cs@;
    let first = without_two(cs, 0, 1);
    let mut max_hand = calc_hand(first.as_slice());
    let mut i: usize = 0;
    let mut j: usize = 1;
    // Pairs (p, q) before (i, j) in lexicographic order have been compared.
    while i < 6
        invariant
            s == cs@,
            s.len() == 7,
            0 <= i <= 6,
            i < 6 ==> i < j <= 7,
            i == 6 ==> j == 7,
            max_hand.wf(),
            exists|p: int, q: int|
                0 <= p < q < 7 && #[trigger] hand_category(drop_two(s, p, q))
                    == max_hand.category() && hand_key(drop_two(s, p, q)) == max_hand.key()
                    && max_hand.card_seq() == drop_two(s, p, q),
            forall|p: int, q: int|
                0 <= p < q < 7 && (p < i || (p == i && q < j)) ==> !#[trigger] below_subset(
                    s,
                    max_hand.category(),
                    max_hand.key(),
                    p,
                    q,
                ),
        decreases 6 - i, 7 - j,
    {
        if j == 7 {
            i = i + 1;
            j = i + 1;
            if i == 6 {
                j = 7;
            }
        } else {
            let five = without_two(cs, i, j);
            let hand = calc_hand(five.as_slice());
            proof {
                lemma_subset_valid(s, i as int, j as int);
            }
            if hand > max_hand {
                proof {
                    assert forall|p: int, q: int|
                        0 <= p < q < 7 && (p < i || (p == i && q < j + 1)) implies !#[trigger] below_subset(
                        s,
                        hand.category(),
                        hand.key(),
                        p,
                        q,
                    ) by {
                        lemma_subset_valid(s, p, q);
                        lemma_hand_order_total(
                            hand_category(drop_two(s, p, q)),
                            hand_key(drop_two(s, p, q)),
                            max_hand.category(),
                            max_hand.key(),
                            hand.category(),
                            hand.key(),
                        );
                        lemma_hand_order_total(
                            hand.category(),
                            hand.key(),
                            hand_category(drop_two(s, p, q)),
                            hand_key(drop_two(s, p, q)),
                            hand.category(),
                            hand.key(),
                        );
                        if p == i && q == j {
                        } else {
                            assert(!below_subset(s, max_hand.category(), max_hand.key(), p, q));
                        }
                    }
                    assert(hand_category(drop_two(s, i as int, j as int)) == hand.category());
                }
                max_hand = hand;
            } else {
                proof {
                    lemma_hand_order_total(
                        max_hand.category(),
                        max_hand.key(),
                        hand.category(),
                        hand.key(),
                        hand.category(),
                        hand.key(),
                    );
                    assert(!below_subset(s, max_hand.category(), max_hand.key(), i as int, j as int));
                }
            }
            j = j + 1;
        }
    }
    max_hand
}

} // verus!
