//! Every way to complete a set of known cards from the rest of the deck.
use vstd::arithmetic::power2::pow2;
use vstd::prelude::*;

use crate::best::{get_max_hand, is_best_of_seven, lemma_best_unique};
use crate::buffers::{seven_items, seven_new, seven_pop, seven_push, seven_slice};
use crate::card::{deck, iter_all_cards, Card};
use crate::hand::calc_hand;
use crate::rules::{
    hand_category, hand_key, lemma_pow13_five, lemma_strength_range, strength, valid_score,
    HandType,
};

verus! {

/// The cards of the deck that are not known, in deck order.
pub open spec fn undealt(known: Seq<Card>) -> Seq<Card> {
    deck().filter(|c: Card| !known.contains(c))
}

/// Every way to choose `k` cards from `pool` at positions `lo` and above, each choice
/// listing its cards in pool order, the choices in lexicographic order of positions.
pub open spec fn choices(pool: Seq<Card>, lo: int, k: nat) -> Seq<Seq<Card>>
    decreases pool.len() - lo, k,
{
    if k == 0 {
        seq![Seq::<Card>::empty()]
    } else if lo >= pool.len() || lo < 0 {
        Seq::<Seq<Card>>::empty()
    } else {
        choices(pool, lo + 1, (k - 1) as nat).map_values(|t: Seq<Card>| seq![pool[lo]] + t)
            + choices(pool, lo + 1, k)
    }
}

/// Every completion of the known cards by `n` undealt cards: the drawn cards in deck
/// order, then the known cards.
pub open spec fn completions(known: Seq<Card>, n: nat) -> Seq<Seq<Card>> {
    choices(undealt(known), 0, n).map_values(|t: Seq<Card>| t + known)
}

/// Number of ways to choose `k` of `n` things.
pub open spec fn binom(n: nat, k: nat) -> nat
    decreases n,
{
    if k == 0 {
        1
    } else if n == 0 {
        0
    } else {
        binom((n - 1) as nat, (k - 1) as nat) + binom((n - 1) as nat, k)
    }
}

/// The best hand that a set of cards makes: the hand of five cards, or the best hand
/// among the five-card subsets of seven.
pub open spec fn set_score(cs: Seq<Card>) -> (HandType, Seq<int>) {
    if cs.len() == 7 {
        choose|ck: (HandType, Seq<int>)| is_best_of_seven(cs, ck.0, ck.1)
    } else {
        (hand_category(cs), hand_key(cs))
    }
}

/// The strength of the best hand that a set of cards makes.
pub open spec fn set_strength(cs: Seq<Card>) -> int {
    strength(set_score(cs).0, set_score(cs).1)
}

/// The strengths of the best hands of a sequence of card sets, in order.
pub open spec fn strengths(sets: Seq<Seq<Card>>) -> Seq<int> {
    sets.map_values(|cs: Seq<Card>| set_strength(cs))
}

pub open spec fn as_ints(v: Seq<u64>) -> Seq<int> {
    v.map_values(|x: u64| x as int)
}

pub proof fn lemma_choices_len(pool: Seq<Card>, lo: int, k: nat)
    requires
        0 <= lo <= pool.len(),
    ensures
        choices(pool, lo, k).len() == binom((pool.len() - lo) as nat, k),
    decreases pool.len() - lo, k,
{
    if k == 0 {
    } else if lo >= pool.len() {
    } else {
        lemma_choices_len(pool, lo + 1, (k - 1) as nat);
        lemma_choices_len(pool, lo + 1, k);
    }
}

/// Each choice holds `k` cards of the pool, from position `lo` on, at strictly rising
/// positions.
pub open spec fn is_choice(pool: Seq<Card>, lo: int, k: nat, t: Seq<Card>) -> bool {
    &&& t.len() == k
    &&& exists|pos: Seq<int>|
        #![trigger pos.len()]
        pos.len() == k && (forall|m: int| 0 <= m < k ==> lo <= #[trigger] pos[m] < pool.len()) && (
        forall|m1: int, m2: int| 0 <= m1 < m2 < k ==> #[trigger] pos[m1] < #[trigger] pos[m2]) && (
        forall|m: int| 0 <= m < k ==> #[trigger] t[m] == pool[pos[m]])
}

pub proof fn lemma_choices_shape(pool: Seq<Card>, lo: int, k: nat)
    requires
        0 <= lo <= pool.len(),
    ensures
        forall|x: int|
            0 <= x < choices(pool, lo, k).len() ==> is_choice(
                pool,
                lo,
                k,
                #[trigger] choices(pool, lo, k)[x],
            ),
    decreases pool.len() - lo, k,
{
    let cs = choices(pool, lo, k);
    if k == 0 {
        assert forall|x: int| 0 <= x < cs.len() implies is_choice(pool, lo, k, #[trigger] cs[x]) by {
            let pos = Seq::<int>::empty();
            assert(pos.len() == k);
        }
    } else if lo >= pool.len() {
    } else {
        lemma_choices_shape(pool, lo + 1, (k - 1) as nat);
        lemma_choices_shape(pool, lo + 1, k);
        let a = choices(pool, lo + 1, (k - 1) as nat);
        let b = choices(pool, lo + 1, k);
        let am = a.map_values(|t: Seq<Card>| seq![pool[lo]] + t);
        assert(cs =~= am + b);
        assert forall|x: int| 0 <= x < cs.len() implies is_choice(pool, lo, k, #[trigger] cs[x]) by {
            if x < am.len() {
                let t = a[x];
                assert(is_choice(pool, lo + 1, (k - 1) as nat, t));
                let pos = choose|pos: Seq<int>|
                    #![trigger pos.len()]
                    pos.len() == k - 1 && (forall|m: int|
                        0 <= m < k - 1 ==> lo + 1 <= #[trigger] pos[m] < pool.len()) && (forall|
                        m1: int,
                        m2: int,
                    | 0 <= m1 < m2 < k - 1 ==> #[trigger] pos[m1] < #[trigger] pos[m2]) && (
                    forall|m: int| 0 <= m < k - 1 ==> #[trigger] t[m] == pool[pos[m]]);
                let p2 = seq![lo] + pos;
                assert(cs[x] == seq![pool[lo]] + t);
                assert(p2.len() == k);
                assert forall|m: int| 0 <= m < k implies #[trigger] cs[x][m] == pool[p2[m]] by {
                    if m > 0 {
                        assert(cs[x][m] == t[m - 1]);
                        assert(p2[m] == pos[m - 1]);
                    }
                }
                assert forall|m1: int, m2: int| 0 <= m1 < m2 < k implies #[trigger] p2[m1]
                    < #[trigger] p2[m2] by {
                    assert(p2[m2] == pos[m2 - 1]);
                    if m1 > 0 {
                        assert(p2[m1] == pos[m1 - 1]);
                    }
                }
                assert forall|m: int| 0 <= m < k implies lo <= #[trigger] p2[m] < pool.len() by {
                    if m > 0 {
                        assert(p2[m] == pos[m - 1]);
                    }
                }
            } else {
                let t = b[x - am.len()];
                assert(is_choice(pool, lo + 1, k, t));
                let pos = choose|pos: Seq<int>|
                    #![trigger pos.len()]
                    pos.len() == k && (forall|m: int|
                        0 <= m < k ==> lo + 1 <= #[trigger] pos[m] < pool.len()) && (forall|
                        m1: int,
                        m2: int,
                    | 0 <= m1 < m2 < k ==> #[trigger] pos[m1] < #[trigger] pos[m2]) && (forall|
                        m: int,
                    | 0 <= m < k ==> #[trigger] t[m] == pool[pos[m]]);
                assert(pos.len() == k);
            }
        }
    }
}

pub proof fn lemma_undealt_len(known: Seq<Card>)
    ensures
        undealt(known).len() <= 52,
{
    deck().lemma_filter_len(|c: Card| !known.contains(c));
}

/// The completions of a set of known cards by a number of drawn cards, walked one at a
/// time without being stored.
pub struct Completions {
    pool: Vec<Card>,
    known: Vec<Card>,
    n: usize,
}

impl Completions {
    /// The undealt cards that completions draw from.
    pub closed spec fn pool_seq(&self) -> Seq<Card> {
        self.pool@
    }

    pub closed spec fn known_seq(&self) -> Seq<Card> {
        self.known@
    }

    pub closed spec fn draws(&self) -> nat {
        self.n as nat
    }

    /// The card sets, in order: each is the drawn cards in deck order, then the known cards.
    pub open spec fn sets(&self) -> Seq<Seq<Card>> {
        choices(self.pool_seq(), 0, self.draws()).map_values(|t: Seq<Card>| t + self.known_seq())
    }

    pub open spec fn wf(&self) -> bool {
        &&& self.pool_seq() == undealt(self.known_seq())
        &&& self.known_seq().len() + self.draws() <= 7
    }

    /// The number of card sets.
    pub fn count(&self) -> (r: u64)
        requires
            self.wf(),
        ensures
            r == self.sets().len(),
    {
        let mut chosen = seven_new();
        let mut total: u64 = 0;
        proof {
            lemma_undealt_len(self.known@);
            lemma_choices_small(self.pool@, 0, self.n as nat);
        }
        proof {
            lemma_choices_len(self.pool@, 0, self.n as nat);
        }
        proof {
            lemma_undealt_len(self.known@);
        }
        self.count_from(0, self.n, &mut chosen, &mut total);
        total
    }

    fn count_from(
        &self,
        lo: usize,
        k: usize,
        chosen: &mut heapless::Vec<Card, 7>,
        total: &mut u64,
    )
        requires
            lo <= self.pool@.len(),
            seven_items(*old(chosen)).len() + k <= 7,
            *old(total) + choices(self.pool@, lo as int, k as nat).len() <= u64::MAX,
        ensures
            seven_items(*final(chosen)) == seven_items(*old(chosen)),
            *final(total) == *old(total) + choices(self.pool@, lo as int, k as nat).len(),
        decreases self.pool@.len() - lo, k,
    {
        if k == 0 {
            *total = *total + 1;
            return;
        }
        if lo >= self.pool.len() {
            return;
        }
        let card = self.pool[lo];
        seven_push(chosen, card);
        proof {
            assert(choices(self.pool@, lo as int, k as nat) =~= choices(
                self.pool@,
                lo + 1,
                (k - 1) as nat,
            ).map_values(|t: Seq<Card>| seq![self.pool@[lo as int]] + t) + choices(
                self.pool@,
                lo + 1,
                k as nat,
            ));
        }
        self.count_from(lo + 1, k - 1, chosen, total);
        seven_pop(chosen);
        self.count_from(lo + 1, k, chosen, total);
    }
}

pub proof fn lemma_binom_bound(n: nat, k: nat)
    ensures
        binom(n, k) <= pow2(n),
    decreases n,
{
    if k > 0 && n > 0 {
        lemma_binom_bound((n - 1) as nat, (k - 1) as nat);
        lemma_binom_bound((n - 1) as nat, k);
        vstd::arithmetic::power2::lemma_pow2_unfold(n);
    } else {
        vstd::arithmetic::power2::lemma_pow2_pos(n);
    }
}

/// A deck has 52 cards, so the number of choices from a pool of at most 52 is small.
pub proof fn lemma_choices_small(pool: Seq<Card>, lo: int, k: nat)
    requires
        0 <= lo <= pool.len(),
        pool.len() <= 52,
    ensures
        choices(pool, lo, k).len() <= 0x10000000000000,
{
    lemma_choices_len(pool, lo, k);
    lemma_binom_bound((pool.len() - lo) as nat, k);
    if pool.len() - lo < 52 {
        vstd::arithmetic::power2::lemma_pow2_strictly_increases((pool.len() - lo) as nat, 52);
    }
    vstd::arithmetic::power2::lemma2_to64_rest();
    assert(pow2(52) == 0x10000000000000);
    assert(pow2((pool.len() - lo) as nat) <= pow2(52));
}

/// The strengths of the completions of a prefix: for each choice of `k` pool cards from
/// position `lo` on, the strength of the prefix, the choice and the known cards together.
pub open spec fn walk_strengths(
    pool: Seq<Card>,
    lo: int,
    k: nat,
    prefix: Seq<Card>,
    known: Seq<Card>,
) -> Seq<int> {
    choices(pool, lo, k).map_values(|t: Seq<Card>| set_strength(prefix + t + known))
}

/// The strength of the best hand of five or seven cards.
pub fn evaluate(cards: &[Card]) -> (r: u64)
    requires
        cards@.len() == 5 || cards@.len() == 7,
    ensures
        r == set_strength(cards@),
        valid_score(set_score(cards@).0, set_score(cards@).1),
        r < 3712930,
{
    if cards.len() == 7 {
        let h = get_max_hand(cards);
        proof {
            let ck = set_score(cards@);
            let w = (h.category(), h.key());
            assert(is_best_of_seven(cards@, w.0, w.1));
            assert(is_best_of_seven(cards@, ck.0, ck.1));
            lemma_best_unique(cards@, ck.0, ck.1, h.category(), h.key());
            lemma_strength_range(h.category(), h.key());
            lemma_pow13_five();
        }
        h.strength()
    } else {
        let h = calc_hand(cards);
        proof {
            lemma_strength_range(h.category(), h.key());
            lemma_pow13_five();
        }
        h.strength()
    }
}

/// Reads the drawn cards and the known cards into one buffer.
fn join_cards(chosen: &heapless::Vec<Card, 7>, known: &Vec<Card>) -> (r: heapless::Vec<Card, 7>)
    requires
        seven_items(*chosen).len() + known@.len() <= 7,
    ensures
        seven_items(r) == seven_items(*chosen) + known@,
{
    let mut full = seven_new();
    let a = seven_slice(chosen);
    let mut i: usize = 0;
    while i < a.len()
        invariant
            a@ == seven_items(*chosen),
            a@.len() + known@.len() <= 7,
            0 <= i <= a@.len(),
            seven_items(full) == a@.take(i as int),
        decreases a@.len() - i,
    {
        seven_push(&mut full, a[i]);
        assert(a@.take(i + 1) =~= a@.take(i as int).push(a@[i as int]));
        i = i + 1;
    }
    assert(a@.take(i as int) =~= a@);
    let mut j: usize = 0;
    while j < known.len()
        invariant
            a@ == seven_items(*chosen),
            a@.len() + known@.len() <= 7,
            0 <= j <= known@.len(),
            seven_items(full) == a@ + known@.take(j as int),
        decreases known@.len() - j,
    {
        seven_push(&mut full, known[j]);
        assert(a@ + known@.take(j + 1) =~= (a@ + known@.take(j as int)).push(known@[j as int]));
        j = j + 1;
    }
    assert(known@.take(j as int) =~= known@);
    full
}

/// Builds the completions of `cards` by `n` cards drawn from the rest of the deck.
pub fn enumerate_n_cards(cards: &[Card], n: usize) -> (r: Completions)
    requires
        cards@.len() + n <= 7,
    ensures
        r.wf(),
        r.known_seq() == cards@,
        r.draws() == n,
        r.sets() == completions(cards@, n as nat),
{
    let deck_cards = iter_all_cards();
    let mut pool: Vec<Card> = Vec::new();
    let ghost pred = |c: Card| !cards@.contains(c);
    let mut i: usize = 0;
    while i < deck_cards.len()
        invariant
            deck_cards@ == deck(),
            0 <= i <= deck_cards@.len(),
            pool@ == deck().take(i as int).filter(pred),
            pred == (|c: Card| !cards@.contains(c)),
        decreases deck_cards@.len() - i,
    {
        let c = deck_cards[i];
        let mut found = false;
        let mut j: usize = 0;
        while j < cards.len()
            invariant
                0 <= j <= cards@.len(),
                found == (exists|m: int| 0 <= m < j && cards@[m] == c),
            decreases cards@.len() - j,
        {
            if cards[j] == c {
                found = true;
            }
            j = j + 1;
        }
        proof {
            reveal(Seq::filter);
            assert(deck().take(i + 1).drop_last() =~= deck().take(i as int));
            assert(deck().take(i + 1).last() == c);
            assert(found == cards@.contains(c));
        }
        if !found {
            pool.push(c);
        }
        i = i + 1;
    }
    assert(deck().take(52) =~= deck());
    let known = vstd::slice::slice_to_vec(cards);
    Completions { pool, known, n }
}

impl Completions {
    /// The strengths of the best hands of the card sets, in order, appended to `out`;
    /// each set holds five or seven cards.
    pub fn strengths_into(&self, out: &mut Vec<u64>)
        requires
            self.wf(),
            self.known_seq().len() + self.draws() == 5 || self.known_seq().len() + self.draws()
                == 7,
        ensures
            as_ints(final(out)@) == as_ints(old(out)@) + strengths(self.sets()),
            forall|x: int| 0 <= x < self.sets().len() ==> strengths(self.sets())[x] < 3712930,
    {
        let mut chosen = seven_new();
        self.walk(0, self.n, &mut chosen, out);
        proof {
            let a = walk_strengths(self.pool@, 0, self.n as nat, Seq::empty(), self.known@);
            assert forall|x: int| 0 <= x < a.len() implies a[x] == strengths(self.sets())[x] by {
                let t = choices(self.pool@, 0, self.n as nat)[x];
                assert(Seq::<Card>::empty() + t =~= t);
            }
            assert(a =~= strengths(self.sets()));
            assert forall|x: int| 0 <= x < self.sets().len() implies strengths(self.sets())[x]
                < 3712930 by {
                assert(as_ints(out@).len() == out@.len());
                assert(out@[old(out)@.len() + x] < 3712930);
                assert(as_ints(out@)[old(out)@.len() + x] == strengths(self.sets())[x]);
            }
        }
    }

    fn walk(&self, lo: usize, k: usize, chosen: &mut heapless::Vec<Card, 7>, out: &mut Vec<u64>)
        requires
            lo <= self.pool@.len(),
            seven_items(*old(chosen)).len() + k + self.known@.len() == 5 || seven_items(
                *old(chosen),
            ).len() + k + self.known@.len() == 7,
        ensures
            seven_items(*final(chosen)) == seven_items(*old(chosen)),
            as_ints(final(out)@) == as_ints(old(out)@) + walk_strengths(
                self.pool@,
                lo as int,
                k as nat,
                seven_items(*old(chosen)),
                self.known@,
            ),
            forall|j: int| old(out)@.len() <= j < final(out)@.len() ==> final(out)@[j] < 3712930,
            forall|j: int| 0 <= j < old(out)@.len() ==> final(out)@[j] == old(out)@[j],
        decreases self.pool@.len() - lo, k,
    {
        let ghost prefix = seven_items(*chosen);
        let ghost before = out@;
        if k == 0 {
            let full = join_cards(chosen, &self.known);
            let s = evaluate(seven_slice(&full));
            out.push(s);
            proof {
                assert(prefix + Seq::<Card>::empty() + self.known@ =~= prefix + self.known@);
                assert(as_ints(out@) =~= as_ints(before) + walk_strengths(
                    self.pool@,
                    lo as int,
                    k as nat,
                    prefix,
                    self.known@,
                ));
            }
            return;
        }
        if lo >= self.pool.len() {
            proof {
                assert(as_ints(out@) =~= as_ints(before) + walk_strengths(
                    self.pool@,
                    lo as int,
                    k as nat,
                    prefix,
                    self.known@,
                ));
            }
            return;
        }
        let card = self.pool[lo];
        seven_push(chosen, card);
        self.walk(lo + 1, k - 1, chosen, out);
        let ghost mid = out@;
        seven_pop(chosen);
        proof {
            assert(prefix.push(card).drop_last() =~= prefix);
        }
        self.walk(lo + 1, k, chosen, out);
        proof {
            let a = choices(self.pool@, lo + 1, (k - 1) as nat);
            let w1 = walk_strengths(self.pool@, lo + 1, (k - 1) as nat, prefix.push(card), self.known@);
            let w2 = walk_strengths(self.pool@, lo + 1, k as nat, prefix, self.known@);
            let w = walk_strengths(self.pool@, lo as int, k as nat, prefix, self.known@);
            assert(choices(self.pool@, lo as int, k as nat) =~= a.map_values(
                |t: Seq<Card>| seq![card] + t,
            ) + choices(self.pool@, lo + 1, k as nat));
            assert forall|x: int| 0 <= x < a.len() implies w[x] == w1[x] by {
                let t = a[x];
                assert(prefix + (seq![card] + t) + self.known@ =~= prefix.push(card) + t
                    + self.known@);
            }
            assert(w =~= w1 + w2);
            assert(as_ints(out@) =~= as_ints(before) + w);
        }
    }
}

/// Choices from a pool without repeated cards are all different.
pub proof fn lemma_choices_distinct(pool: Seq<Card>, lo: int, k: nat)
    requires
        pool.no_duplicates(),
        0 <= lo <= pool.len(),
    ensures
        choices(pool, lo, k).no_duplicates(),
    decreases pool.len() - lo, k,
{
    let cs = choices(pool, lo, k);
    if k == 0 || lo >= pool.len() {
    } else {
        lemma_choices_distinct(pool, lo + 1, (k - 1) as nat);
        lemma_choices_distinct(pool, lo + 1, k);
        lemma_choices_shape(pool, lo + 1, k);
        let a = choices(pool, lo + 1, (k - 1) as nat);
        let b = choices(pool, lo + 1, k);
        let am = a.map_values(|t: Seq<Card>| seq![pool[lo]] + t);
        assert(cs =~= am + b);
        assert forall|x: int, y: int| 0 <= x < y < cs.len() implies cs[x] != cs[y] by {
            if y < am.len() {
                assert((seq![pool[lo]] + a[x]).drop_first() =~= a[x]);
                assert((seq![pool[lo]] + a[y]).drop_first() =~= a[y]);
            } else if x >= am.len() {
            } else {
                let t = b[y - am.len()];
                assert(is_choice(pool, lo + 1, k, t));
                let pos = choose|pos: Seq<int>|
                    #![trigger pos.len()]
                    pos.len() == k && (forall|m: int|
                        0 <= m < k ==> lo + 1 <= #[trigger] pos[m] < pool.len()) && (forall|
                        m1: int,
                        m2: int,
                    | 0 <= m1 < m2 < k ==> #[trigger] pos[m1] < #[trigger] pos[m2]) && (forall|
                        m: int,
                    | 0 <= m < k ==> #[trigger] t[m] == pool[pos[m]]);
                assert(t[0] == pool[pos[0]]);
                assert(cs[x][0] == pool[lo]);
            }
        }
    }
}

/// A pool of cards drawn from a deck without repeats has none either.
pub proof fn lemma_filter_distinct(s: Seq<Card>, p: spec_fn(Card) -> bool)
    requires
        s.no_duplicates(),
    ensures
        s.filter(p).no_duplicates(),
    decreases s.len(),
{
    reveal(Seq::filter);
    if s.len() > 0 {
        let t = s.drop_last();
        lemma_filter_distinct(t, p);
        if p(s.last()) {
            if t.filter(p).contains(s.last()) {
                t.lemma_filter_contains_rev(p, s.last());
                let i = choose|i: int| 0 <= i < t.len() && t[i] == s.last();
                assert(s[i] == s[s.len() - 1]);
            }
        }
    }
}

/// Splitting a sequence by a test keeps every item once.
pub proof fn lemma_filter_complement(s: Seq<Card>, p: spec_fn(Card) -> bool, q: spec_fn(Card) -> bool)
    requires
        forall|c: Card| #[trigger] q(c) == !p(c),
    ensures
        s.filter(p).len() + s.filter(q).len() == s.len(),
    decreases s.len(),
{
    reveal(Seq::filter);
    if s.len() > 0 {
        lemma_filter_complement(s.drop_last(), p, q);
    }
}

/// The undealt cards are the 52 less the known ones, when no known card is repeated.
pub proof fn lemma_undealt_count(known: Seq<Card>)
    requires
        known.no_duplicates(),
    ensures
        undealt(known).len() == 52 - known.len(),
        undealt(known).no_duplicates(),
{
    let inside = |c: Card| known.contains(c);
    let d = deck();
    crate::card::lemma_deck_distinct();
    lemma_filter_complement(d, inside, |c: Card| !known.contains(c));
    lemma_filter_distinct(d, inside);
    lemma_filter_distinct(d, |c: Card| !known.contains(c));
    let f = d.filter(inside);
    assert(f.to_set() =~= known.to_set()) by {
        broadcast use vstd::seq_lib::group_filter_ensures;

        assert forall|c: Card| f.to_set().contains(c) <==> known.to_set().contains(c) by {
            if known.contains(c) {
                crate::card::lemma_deck_complete(c);
                let i = crate::card::deck_index(c);
                d.lemma_filter_contains(inside, i);
            }
            if f.contains(c) {
                let i = choose|i: int| 0 <= i < f.len() && f[i] == c;
                d.lemma_filter_pred(inside, i);
            }
        }
    }
    f.unique_seq_to_set();
    known.unique_seq_to_set();
}

/// Every completion of distinct known cards by `n` cards: there are C(52 - known, n) of
/// them; each holds the known cards and `n` undealt cards, no card twice; no two are equal.
pub proof fn lemma_completions_exact(known: Seq<Card>, n: nat)
    requires
        known.no_duplicates(),
    ensures
        completions(known, n).len() == binom((52 - known.len()) as nat, n),
        completions(known, n).no_duplicates(),
        forall|x: int|
            0 <= x < completions(known, n).len() ==> {
                let s = #[trigger] completions(known, n)[x];
                &&& s.len() == n + known.len()
                &&& s.no_duplicates()
                &&& forall|c: Card| known.contains(c) ==> s.contains(c)
                &&& forall|m: int| 0 <= m < n ==> !known.contains(#[trigger] s[m])
            },
{
    let pool = undealt(known);
    lemma_undealt_count(known);
    lemma_choices_len(pool, 0, n);
    lemma_choices_shape(pool, 0, n);
    lemma_choices_distinct(pool, 0, n);
    let ch = choices(pool, 0, n);
    let cs = completions(known, n);
    assert forall|x: int, y: int| 0 <= x < y < cs.len() implies cs[x] != cs[y] by {
        assert(cs[x].subrange(0, n as int) =~= ch[x]);
        assert(cs[y].subrange(0, n as int) =~= ch[y]);
    }
    assert forall|x: int| 0 <= x < cs.len() implies {
        let s = #[trigger] cs[x];
        &&& s.len() == n + known.len()
        &&& s.no_duplicates()
        &&& forall|c: Card| known.contains(c) ==> s.contains(c)
        &&& forall|m: int| 0 <= m < n ==> !known.contains(#[trigger] s[m])
    } by {
        let t = ch[x];
        let s = cs[x];
        assert(s == t + known);
        assert(is_choice(pool, 0, n, t));
        let pos = choose|pos: Seq<int>|
            #![trigger pos.len()]
            pos.len() == n && (forall|m: int| 0 <= m < n ==> 0 <= #[trigger] pos[m] < pool.len())
                && (forall|m1: int, m2: int|
                0 <= m1 < m2 < n ==> #[trigger] pos[m1] < #[trigger] pos[m2]) && (forall|m: int|
                0 <= m < n ==> #[trigger] t[m] == pool[pos[m]]);
        assert forall|m: int| 0 <= m < n implies !known.contains(#[trigger] s[m]) by {
            assert(s[m] == pool[pos[m]]);
            deck().lemma_filter_pred(|c: Card| !known.contains(c), pos[m]);
        }
        assert forall|c: Card| known.contains(c) implies s.contains(c) by {
            let i = choose|i: int| 0 <= i < known.len() && known[i] == c;
            assert(s[n + i] == c);
        }
        assert forall|i: int, j: int| 0 <= i < j < s.len() implies s[i] != s[j] by {
            if j < n {
                assert(s[i] == pool[pos[i]]);
                assert(s[j] == pool[pos[j]]);
            } else if i >= n {
                assert(s[i] == known[i - n]);
                assert(s[j] == known[j - n]);
            } else {
                assert(s[i] == pool[pos[i]]);
                deck().lemma_filter_pred(|c: Card| !known.contains(c), pos[i]);
                assert(s[j] == known[j - n]);
            }
        }
    }
}

pub proof fn lemma_binom_three(n: nat)
    ensures
        binom(n, 1) == n,
        2 * binom(n, 2) == n * (n - 1),
        6 * binom(n, 3) == n * (n - 1) * (n - 2),
    decreases n,
{
    if n > 0 {
        let m = (n - 1) as nat;
        lemma_binom_three(m);
        assert(binom(m, 0) == 1);
        assert(binom(n, 1) == binom(m, 0) + binom(m, 1));
        assert(binom(n, 2) == binom(m, 1) + binom(m, 2));
        assert(binom(n, 3) == binom(m, 2) + binom(m, 3));
        assert(2 * m + m * (m - 1) == n * (n - 1)) by (nonlinear_arith)
            requires
                m == n - 1,
        ;
        assert(3 * (m * (m - 1)) + m * (m - 1) * (m - 2) == n * (n - 1) * (n - 2))
            by (nonlinear_arith)
            requires
                m == n - 1,
        ;
    } else {
        assert(binom(0, 1) == 0);
        assert(binom(0, 2) == 0);
        assert(binom(0, 3) == 0);
    }
}

/// Completing two different known cards to five: C(50, 3) = 19600 sets, each holding both
/// known cards and three other cards, none repeated, no two sets equal.
pub proof fn lemma_two_known_to_five(known: Seq<Card>)
    requires
        known.len() == 2,
        known[0] != known[1],
    ensures
        completions(known, 3).len() == 19600,
        completions(known, 3).no_duplicates(),
        forall|x: int|
            0 <= x < completions(known, 3).len() ==> {
                let s = #[trigger] completions(known, 3)[x];
                &&& s.len() == 5
                &&& s.no_duplicates()
                &&& s.contains(known[0]) && s.contains(known[1])
            },
{
    lemma_completions_exact(known, 3);
    lemma_binom_three(50);
}

} // verus!
