//! Win and tie counts of a player's hands against the field's hands.
use vstd::prelude::*;

use crate::buffers::{five_from_slice, five_items, five_slice};
use crate::card::Card;
use crate::completions::{as_ints, completions, enumerate_n_cards, strengths};
use crate::rules::{category_value, int_leq, HandType, lemma_int_leq_total, lemma_pow13_five, pow13};
use vstd::relations::sorted_by;
use vstd::seq_lib::lemma_sorted_unique;

verus! {

broadcast use vstd::seq_lib::group_to_multiset_ensures;

/// Number of values in `s` below `x`.
pub open spec fn count_below(s: Seq<int>, x: int) -> nat
    decreases s.len(),
{
    if s.len() == 0 {
        0
    } else {
        count_below(s.drop_last(), x) + if s.last() < x {
            1nat
        } else {
            0nat
        }
    }
}

/// Number of values in `s` equal to `x`.
pub open spec fn count_equal(s: Seq<int>, x: int) -> nat
    decreases s.len(),
{
    if s.len() == 0 {
        0
    } else {
        count_equal(s.drop_last(), x) + if s.last() == x {
            1nat
        } else {
            0nat
        }
    }
}

/// Number of values in `s` whose hand category has position `c`: the strengths from
/// `c` times 13 to the fifth up to the next multiple.
pub open spec fn count_category(s: Seq<int>, c: int) -> nat
    decreases s.len(),
{
    if s.len() == 0 {
        0
    } else {
        count_category(s.drop_last(), c) + if c * pow13(5) <= s.last() < (c + 1) * pow13(5) {
            1nat
        } else {
            0nat
        }
    }
}

pub open spec fn seq_sum(s: Seq<int>) -> int
    decreases s.len(),
{
    if s.len() == 0 {
        0
    } else {
        seq_sum(s.drop_last()) + s.last()
    }
}

pub open spec fn ascending(s: Seq<int>) -> bool {
    forall|i: int, j: int| 0 <= i < j < s.len() ==> s[i] <= s[j]
}

/// For each of the player's hands, the number of field hands it beats.
pub open spec fn wins_against(mine: Seq<int>, field: Seq<int>) -> Seq<int> {
    mine.map_values(|m: int| count_below(field, m) as int)
}

/// For each of the player's hands, the number of field hands it ties.
pub open spec fn ties_against(mine: Seq<int>, field: Seq<int>) -> Seq<int> {
    mine.map_values(|m: int| count_equal(field, m) as int)
}

pub proof fn lemma_count_split(s: Seq<int>, x: int, p: int, q: int)
    requires
        0 <= p <= q <= s.len(),
        forall|j: int| 0 <= j < p ==> s[j] < x,
        forall|j: int| p <= j < q ==> s[j] == x,
        forall|j: int| q <= j < s.len() ==> s[j] > x,
    ensures
        count_below(s, x) == p,
        count_equal(s, x) == q - p,
    decreases s.len(),
{
    if s.len() > 0 {
        let t = s.drop_last();
        if q == s.len() {
            if p == s.len() {
                lemma_count_split(t, x, p - 1, q - 1);
            } else {
                lemma_count_split(t, x, p, q - 1);
            }
        } else {
            lemma_count_split(t, x, p, q);
        }
    }
}

pub proof fn lemma_count_below_bound(s: Seq<int>, x: int)
    ensures
        count_below(s, x) + count_equal(s, x) <= s.len(),
    decreases s.len(),
{
    if s.len() > 0 {
        lemma_count_below_bound(s.drop_last(), x);
    }
}

/// Relies on slice::sort_unstable for u64: afterwards the vector holds the same values,
/// in ascending order.
#[verifier::external_body]
fn sort_values(v: &mut Vec<u64>)
    ensures
        final(v)@.to_multiset() == old(v)@.to_multiset(),
        forall|i: int, j: int| 0 <= i < j < final(v)@.len() ==> final(v)@[i] <= final(v)@[j],
{
    v.sort_unstable()
}

/// The first position in the ascending `s` whose value is not below `x` (with `strict`),
/// or is above `x` (without).
fn search(s: &Vec<u64>, x: u64, strict: bool) -> (r: usize)
    requires
        ascending(as_ints(s@)),
    ensures
        r <= s@.len(),
        forall|j: int| 0 <= j < r ==> if strict {
            s@[j] < x
        } else {
            s@[j] <= x
        },
        forall|j: int| r <= j < s@.len() ==> if strict {
            s@[j] >= x
        } else {
            s@[j] > x
        },
{
    let mut lo: usize = 0;
    let mut hi: usize = s.len();
    while lo < hi
        invariant
            ascending(as_ints(s@)),
            0 <= lo <= hi <= s@.len(),
            forall|j: int| 0 <= j < lo ==> if strict {
                s@[j] < x
            } else {
                s@[j] <= x
            },
            forall|j: int| hi <= j < s@.len() ==> if strict {
                s@[j] >= x
            } else {
                s@[j] > x
            },
        decreases hi - lo,
    {
        let mid = lo + (hi - lo) / 2;
        let below = if strict {
            s[mid] < x
        } else {
            s[mid] <= x
        };
        if below {
            assert forall|j: int| 0 <= j <= mid implies if strict {
                s@[j] < x
            } else {
                s@[j] <= x
            } by {
                assert(as_ints(s@)[j] <= as_ints(s@)[mid as int]);
            }
            lo = mid + 1;
        } else {
            assert forall|j: int| mid <= j < s@.len() implies if strict {
                s@[j] >= x
            } else {
                s@[j] > x
            } by {
                assert(as_ints(s@)[mid as int] <= as_ints(s@)[j]);
            }
            hi = mid;
        }
    }
    lo
}

/// A query: two hole cards and zero, three, four or five community cards.
pub struct Stage {
    pub_cards: heapless::Vec<Card, 5>,
    my_cards: [Card; 2],
}

/// The player's hands against the field's hands, counted exactly.
pub struct Matchup {
    /// The player's hand strengths, one per completion of the player's cards.
    pub mine: Vec<u64>,
    /// The field's hand strengths, one per completion of the community cards, ascending.
    pub field: Vec<u64>,
    /// For each of the player's hands, the number of field hands it beats.
    pub wins: Vec<u64>,
    /// For each of the player's hands, the number of field hands it ties.
    pub ties: Vec<u64>,
}

impl Stage {
    pub closed spec fn community(&self) -> Seq<Card> {
        five_items(self.pub_cards)
    }

    pub closed spec fn hole(&self) -> Seq<Card> {
        self.my_cards@
    }

    pub open spec fn wf(&self) -> bool {
        let n = self.community().len();
        &&& self.hole().len() == 2
        &&& (n == 0 || 3 <= n <= 5)
    }

    /// The player's card sets: the hole cards completed to five when no community card
    /// is known, else the community and hole cards completed to seven.
    pub open spec fn player_sets(&self) -> Seq<Seq<Card>> {
        if self.community().len() == 0 {
            completions(self.hole(), 3)
        } else {
            completions(self.community() + self.hole(), (5 - self.community().len()) as nat)
        }
    }

    /// The field's card sets: every five cards of the deck when no community card is
    /// known, else the community cards completed to seven.
    pub open spec fn field_sets(&self) -> Seq<Seq<Card>> {
        if self.community().len() == 0 {
            completions(Seq::empty(), 5)
        } else {
            completions(self.community(), (7 - self.community().len()) as nat)
        }
    }

    /// The strengths of the field's hands, ascending.
    pub open spec fn field_ranked(&self) -> Seq<int> {
        strengths(self.field_sets()).sort_by(int_leq())
    }

    /// For each of the player's hands, in enumeration order, the field hands it beats.
    pub open spec fn hand_wins(&self) -> Seq<int> {
        wins_against(strengths(self.player_sets()), self.field_ranked())
    }

    /// For each of the player's hands, in enumeration order, the field hands it ties.
    pub open spec fn hand_ties(&self) -> Seq<int> {
        ties_against(strengths(self.player_sets()), self.field_ranked())
    }

    /// Starts a query from two hole cards and zero, three, four or five community cards.
    pub fn new(my_cards: [Card; 2], pub_cards: &[Card]) -> (r: Stage)
        requires
            pub_cards@.len() == 0 || 3 <= pub_cards@.len() <= 5,
        ensures
            r.wf(),
            r.hole() == my_cards@,
            r.community() == pub_cards@,
    {
        let copied = five_from_slice(pub_cards);
        let pub_cards = copied.unwrap();
        Stage { pub_cards, my_cards }
    }

    pub fn hole_cards(&self) -> (r: [Card; 2])
        ensures
            r@ == self.hole(),
    {
        self.my_cards
    }

    pub fn community_cards(&self) -> (r: &[Card])
        ensures
            r@ == self.community(),
    {
        five_slice(&self.pub_cards)
    }

    /// The strengths of the player's hands and of the field's hands, each in enumeration
    /// order.
    fn enumerate_hands(&self) -> (r: (Vec<u64>, Vec<u64>))
        requires
            self.wf(),
        ensures
            as_ints(r.0@) == strengths(self.player_sets()),
            as_ints(r.1@) == strengths(self.field_sets()),
            forall|x: int|
                0 <= x < self.player_sets().len() ==> #[trigger] strengths(self.player_sets())[x]
                    < 3712930,
            forall|x: int|
                0 <= x < self.field_sets().len() ==> #[trigger] strengths(self.field_sets())[x]
                    < 3712930,
    {
        let community = five_slice(&self.pub_cards);
        let mut mine: Vec<u64> = Vec::new();
        let mut all: Vec<u64> = Vec::new();
        if community.len() == 0 {
            let own = enumerate_n_cards(self.my_cards.as_slice(), 3);
            own.strengths_into(&mut mine);
            let empty: [Card; 0] = [];
            let field = enumerate_n_cards(empty.as_slice(), 5);
            field.strengths_into(&mut all);
            proof {
                assert(empty@ =~= Seq::<Card>::empty());
            }
        } else {
            let mut known: Vec<Card> = Vec::new();
            let mut i: usize = 0;
            while i < community.len()
                invariant
                    0 <= i <= community@.len(),
                    known@ == community@.take(i as int),
                decreases community@.len() - i,
            {
                known.push(community[i]);
                assert(community@.take(i + 1) =~= community@.take(i as int).push(
                    community@[i as int],
                ));
                i = i + 1;
            }
            known.push(self.my_cards[0]);
            known.push(self.my_cards[1]);
            proof {
                assert(known@ =~= community@ + self.my_cards@);
            }
            let own = enumerate_n_cards(known.as_slice(), 5 - community.len());
            own.strengths_into(&mut mine);
            let field = enumerate_n_cards(community, 7 - community.len());
            field.strengths_into(&mut all);
        }
        assert(as_ints(mine@) =~= strengths(self.player_sets()));
        assert(as_ints(all@) =~= strengths(self.field_sets()));
        (mine, all)
    }

    /// Every hand the player can reach, against every hand the field can reach: for each
    /// of the player's hands, the field hands it beats and ties.
    pub fn matchup(&self) -> (r: Matchup)
        requires
            self.wf(),
        ensures
            as_ints(r.mine@) == strengths(self.player_sets()),
            ascending(as_ints(r.field@)),
            as_ints(r.field@).to_multiset() == strengths(self.field_sets()).to_multiset(),
            as_ints(r.wins@) == wins_against(as_ints(r.mine@), as_ints(r.field@)),
            as_ints(r.ties@) == ties_against(as_ints(r.mine@), as_ints(r.field@)),
            as_ints(r.field@) == self.field_ranked(),
            as_ints(r.wins@) == self.hand_wins(),
            as_ints(r.ties@) == self.hand_ties(),
            forall|j: int| 0 <= j < r.wins@.len() ==> r.wins@[j] + r.ties@[j] <= r.field@.len(),
            forall|j: int| 0 <= j < r.mine@.len() ==> r.mine@[j] < 3712930,
            r.mine@.len() == self.player_sets().len(),
            r.field@.len() == self.field_sets().len(),
            r.wins@.len() == r.mine@.len(),
            r.ties@.len() == r.mine@.len(),
            forall|j: int| 0 <= j < r.field@.len() ==> r.field@[j] < 3712930,
    {
        let (mine, mut field) = self.enumerate_hands();
        let ghost unsorted = field@;
        sort_values(&mut field);
        proof {
            assert(as_ints(field@).to_multiset() =~= as_ints(unsorted).to_multiset()) by {
                lemma_as_ints_multiset(field@, unsorted);
            }
        }
        proof {
            let f = strengths(self.field_sets());
            lemma_int_leq_total();
            f.lemma_sort_by_ensures(int_leq());
            assert(sorted_by(as_ints(field@), int_leq()));
            lemma_sorted_unique(as_ints(field@), self.field_ranked(), int_leq());
            assert(as_ints(field@).len() == as_ints(field@).to_multiset().len());
            assert(f.len() == f.to_multiset().len());
            assert(as_ints(mine@).len() == mine@.len());
            assert forall|j: int| 0 <= j < field@.len() implies field@[j] < 3712930 by {
                assert(as_ints(field@)[j] == field@[j] as int);
                assert(as_ints(field@).contains(field@[j] as int));
                assert(as_ints(field@).to_multiset().count(field@[j] as int) > 0);
                assert(f.contains(field@[j] as int));
                let x = choose|x: int| 0 <= x < f.len() && f[x] == field@[j] as int;
                assert(self.field_sets().len() == f.len());
                assert(strengths(self.field_sets())[x] < 3712930);
            }
            assert forall|j: int| 0 <= j < mine@.len() implies mine@[j] < 3712930 by {
                assert(as_ints(mine@)[j] == mine@[j] as int);
                assert(as_ints(mine@).len() == mine@.len());
                assert(self.player_sets().len() == mine@.len());
                assert(strengths(self.player_sets())[j] < 3712930);
            }
        }
        let mut wins: Vec<u64> = Vec::new();
        let mut ties: Vec<u64> = Vec::new();
        let mut i: usize = 0;
        while i < mine.len()
            invariant
                ascending(as_ints(field@)),
                0 <= i <= mine@.len(),
                wins@.len() == i,
                ties@.len() == i,
                forall|j: int|
                    0 <= j < i ==> wins@[j] as int == count_below(
                        as_ints(field@),
                        mine@[j] as int,
                    ),
                forall|j: int|
                    0 <= j < i ==> ties@[j] as int == count_equal(
                        as_ints(field@),
                        mine@[j] as int,
                    ),
                forall|j: int| 0 <= j < i ==> wins@[j] + ties@[j] <= field@.len(),
            decreases mine@.len() - i,
        {
            let x = mine[i];
            let p = search(&field, x, true);
            let q = search(&field, x, false);
            proof {
                let f = as_ints(field@);
                assert(p <= q) by {
                    if p > q {
                        assert(field@[q as int] > x);
                        assert(field@[q as int] < x);
                    }
                }
                lemma_count_split(f, x as int, p as int, q as int);
            }
            wins.push(p as u64);
            ties.push((q - p) as u64);
            i = i + 1;
        }
        proof {
            assert(as_ints(wins@) =~= wins_against(as_ints(mine@), as_ints(field@)));
            assert(as_ints(ties@) =~= ties_against(as_ints(mine@), as_ints(field@)));
        }
        Matchup { mine, field, wins, ties }
    }
}

pub proof fn lemma_as_ints_multiset(a: Seq<u64>, b: Seq<u64>)
    requires
        a.to_multiset() == b.to_multiset(),
    ensures
        as_ints(a).to_multiset() == as_ints(b).to_multiset(),
    decreases a.len(),
{
    broadcast use vstd::multiset::group_multiset_axioms;

    if a.len() == 0 {
        assert(a.to_multiset().len() == 0);
        assert(b.len() == b.to_multiset().len());
        assert(as_ints(a) =~= as_ints(b));
    } else {
        let x = a.last();
        let a0 = a.drop_last();
        assert(a0.push(x) =~= a);
        assert(b.to_multiset().count(x) > 0);
        let k = choose|k: int| 0 <= k < b.len() && b[k] == x;
        let b0 = b.remove(k);
        assert(b0.to_multiset() =~= a0.to_multiset());
        lemma_as_ints_multiset(a0, b0);
        assert(as_ints(a) =~= as_ints(a0).push(x as int));
        assert(as_ints(b0) =~= as_ints(b).remove(k));
        assert(as_ints(b).to_multiset() =~= as_ints(b0).to_multiset().insert(x as int));
    }
}

pub proof fn lemma_sum_update(s: Seq<int>, i: int, v: int)
    requires
        0 <= i < s.len(),
    ensures
        seq_sum(s.update(i, v)) == seq_sum(s) - s[i] + v,
    decreases s.len(),
{
    if i < s.len() - 1 {
        assert(s.update(i, v).drop_last() =~= s.drop_last().update(i, v));
        lemma_sum_update(s.drop_last(), i, v);
    } else {
        assert(s.update(i, v).drop_last() =~= s.drop_last());
    }
}

/// The category position of a strength: its band of width 13 to the fifth.
fn band(x: u64) -> (c: usize)
    requires
        x < 3712930,
    ensures
        c < 10,
        c as int * 371293 <= x as int,
        (x as int) < (c as int + 1) * 371293,
{
    let mut c: usize = 0;
    let mut top: u64 = 371293;
    while c < 9 && x >= top
        invariant
            c <= 9,
            top == (c as int + 1) * 371293,
            c as int * 371293 <= x as int,
            x < 3712930,
        decreases 9 - c,
    {
        c = c + 1;
        top = top + 371293;
    }
    c
}

/// The category of a hand strength; `None` for a number that is no strength.
pub fn strength_category(x: u64) -> (r: Option<HandType>)
    ensures
        r is Some <==> x < 3712930,
        r matches Some(t) ==> category_value(t) * 371293 <= x < (category_value(t) + 1) * 371293,
{
    if x < 3712930 {
        HandType::from_index(band(x))
    } else {
        None
    }
}

/// How many of the strengths fall in each of the ten categories.
fn category_counts(v: &Vec<u64>) -> (r: [u64; 10])
    requires
        forall|j: int| 0 <= j < v@.len() ==> v@[j] < 3712930,
    ensures
        forall|c: int| 0 <= c < 10 ==> r@[c] == count_category(as_ints(v@), c),
        seq_sum(as_ints(r@)) == v@.len(),
{
    let mut r: [u64; 10] = [0, 0, 0, 0, 0, 0, 0, 0, 0, 0];
    proof {
        assert(seq_sum(as_ints(r@)) == 0) by {
            let z = as_ints(r@);
            assert(z =~= seq![0int, 0, 0, 0, 0, 0, 0, 0, 0, 0]);
            reveal_with_fuel(seq_sum, 11);
        }
        assert(as_ints(v@).take(0) =~= Seq::<int>::empty());
    }
    let mut i: usize = 0;
    while i < v.len()
        invariant
            forall|j: int| 0 <= j < v@.len() ==> v@[j] < 3712930,
            0 <= i <= v@.len(),
            forall|c: int| 0 <= c < 10 ==> r@[c] == count_category(as_ints(v@).take(i as int), c),
            forall|c: int| 0 <= c < 10 ==> r@[c] <= i,
            seq_sum(as_ints(r@)) == i,
        decreases v@.len() - i,
    {
        let x = v[i];
        assert(x < 3712930);
        let c = band(x);
        let ghost old_r = r@;
        proof {
            lemma_pow13_five();
            let t = as_ints(v@).take(i + 1);
            assert(t.drop_last() =~= as_ints(v@).take(i as int));
            assert(t.last() == v@[i as int] as int);
            assert(x < 3712930);
            assert(c * 371293 <= x < (c + 1) * 371293);
            assert forall|cc: int| 0 <= cc < 10 implies #[trigger] count_category(t, cc)
                == count_category(t.drop_last(), cc) + if cc == c {
                1nat
            } else {
                0nat
            } by {
                if cc < c {
                    assert((cc + 1) * 371293 <= c * 371293);
                } else if cc > c {
                    assert((c + 1) * 371293 <= cc * 371293);
                }
            }
        }
        r[c] = r[c] + 1;
        proof {
            assert(as_ints(r@) =~= as_ints(old_r).update(c as int, old_r[c as int] + 1));
            lemma_sum_update(as_ints(old_r), c as int, old_r[c as int] + 1);
        }
        i = i + 1;
    }
    assert(as_ints(v@).take(i as int) =~= as_ints(v@));
    r
}

/// The sum of the values.
fn total(v: &Vec<u64>) -> (r: u128)
    ensures
        r == seq_sum(as_ints(v@)),
{
    let mut acc: u128 = 0;
    let mut i: usize = 0;
    assert(as_ints(v@).take(0) =~= Seq::<int>::empty());
    while i < v.len()
        invariant
            0 <= i <= v@.len(),
            acc == seq_sum(as_ints(v@).take(i as int)),
            acc <= i * 0xffff_ffff_ffff_ffff,
        decreases v@.len() - i,
    {
        proof {
            let t = as_ints(v@).take(i + 1);
            assert(t.drop_last() =~= as_ints(v@).take(i as int));
            assert(i < 0x1_0000_0000_0000_0000);
            assert(acc + v@[i as int] <= (i + 1) * 0xffff_ffff_ffff_ffff) by (nonlinear_arith)
                requires
                    acc <= i * 0xffff_ffff_ffff_ffff,
                    v@[i as int] <= 0xffff_ffff_ffff_ffff,
            ;
            assert((i + 1) * 0xffff_ffff_ffff_ffff < 0xffff_ffff_ffff_ffff_ffff_ffff_ffff_ffff)
                by (nonlinear_arith)
                requires
                    i < 0x1_0000_0000_0000_0000,
            ;
        }
        acc = acc + v[i] as u128;
        i = i + 1;
    }
    assert(as_ints(v@).take(i as int) =~= as_ints(v@));
    acc
}

/// The player's standing against the field, with rates kept as exact counts: a hand's
/// win rate is the number of field hands it beats over `field_size`.
pub struct WinRate {
    /// Number of the player's hands.
    pub hands: usize,
    /// Number of the field's hands.
    pub field_size: usize,
    /// For each of the player's hands, the field hands it beats, ascending.
    pub wins: Vec<u64>,
    /// Sum of the field hands beaten, over all of the player's hands.
    pub win_sum: u128,
    /// Sum of the field hands tied, over all of the player's hands.
    pub tie_sum: u128,
    pub min: u64,
    pub percentile25: u64,
    pub median: u64,
    pub percentile75: u64,
    pub max: u64,
    /// How many of the player's hands fall in each category, by category position.
    pub self_counts: [u64; 10],
    /// How many of the field's hands fall in each category, by category position.
    pub other_counts: [u64; 10],
}

/// The player's hands against the field for a table of several players, with rates
/// kept as exact counts.
pub struct Odds {
    /// Number of players at the table.
    pub players: usize,
    /// Number of the field's hands.
    pub field_size: usize,
    /// For each of the player's hands, in enumeration order, the field hands it beats.
    pub wins: Vec<u64>,
    /// For each of the player's hands, in enumeration order, the field hands it ties.
    pub ties: Vec<u64>,
    /// How many of the player's hands fall in each category, by category position.
    pub hand_counts: [u64; 10],
}

impl Stage {
    /// The player's win rates against the field: their distribution (as counts of field
    /// hands beaten), the ties, and the category frequencies of both sides.
    pub fn win_rate(&self) -> (r: WinRate)
        requires
            self.wf(),
        ensures
            r.hands == self.player_sets().len(),
            r.field_size == self.field_sets().len(),
            as_ints(r.wins@) == self.hand_wins().sort_by(int_leq()),
            r.win_sum == seq_sum(self.hand_wins()),
            r.tie_sum == seq_sum(self.hand_ties()),
            r.hands > 0 ==> r.min == r.wins@[0] && r.percentile25 == r.wins@[(r.hands / 4) as int]
                && r.median == r.wins@[(r.hands / 2) as int] && r.percentile75 == r.wins@[(r.hands
                / 4 * 3) as int] && r.max == r.wins@[r.hands - 1],
            r.hands == 0 ==> r.min == 0 && r.percentile25 == 0 && r.median == 0 && r.percentile75
                == 0 && r.max == 0,
            r.min <= r.percentile25 <= r.median <= r.max <= r.field_size,
            r.min <= r.percentile75 <= r.max,
            forall|c: int|
                0 <= c < 10 ==> r.self_counts@[c] == count_category(
                    strengths(self.player_sets()),
                    c,
                ),
            forall|c: int|
                0 <= c < 10 ==> r.other_counts@[c] == count_category(self.field_ranked(), c),
            seq_sum(as_ints(r.self_counts@)) == r.hands,
            seq_sum(as_ints(r.other_counts@)) == r.field_size,
    {
        let m = self.matchup();
        let win_sum = total(&m.wins);
        let tie_sum = total(&m.ties);
        let self_counts = category_counts(&m.mine);
        let other_counts = category_counts(&m.field);
        let hands = m.mine.len();
        let field_size = m.field.len();
        let mut wins = m.wins;
        let ghost unsorted = wins@;
        sort_values(&mut wins);
        proof {
            lemma_as_ints_multiset(wins@, unsorted);
            lemma_int_leq_total();
            self.hand_wins().lemma_sort_by_ensures(int_leq());
            assert(sorted_by(as_ints(wins@), int_leq()));
            lemma_sorted_unique(as_ints(wins@), self.hand_wins().sort_by(int_leq()), int_leq());
            assert(wins@.len() == wins@.to_multiset().len());
            assert(unsorted.len() == unsorted.to_multiset().len());
            assert forall|j: int| 0 <= j < wins@.len() implies wins@[j] <= field_size by {
                assert(as_ints(wins@)[j] == wins@[j] as int);
                assert(as_ints(wins@).contains(wins@[j] as int));
                assert(as_ints(wins@).to_multiset().count(wins@[j] as int) > 0);
                assert(as_ints(unsorted).contains(wins@[j] as int));
                let x = choose|x: int|
                    0 <= x < as_ints(unsorted).len() && as_ints(unsorted)[x] == wins@[j] as int;
                assert(unsorted[x] + m.ties@[x] <= field_size);
            }
        }
        let n = wins.len();
        let (min, percentile25, median, percentile75, max) = if n == 0 {
            (0, 0, 0, 0, 0)
        } else {
            (wins[0], wins[n / 4], wins[n / 2], wins[n / 4 * 3], wins[n - 1])
        };
        WinRate {
            hands,
            field_size,
            wins,
            win_sum,
            tie_sum,
            min,
            percentile25,
            median,
            percentile75,
            max,
            self_counts,
            other_counts,
        }
    }

    /// The player's hands against the field for a table of `n` players: per hand, the
    /// field hands it beats and ties, and the category frequencies of the player's hands.
    pub fn win_rate_with_n_players(&self, n: usize) -> (r: Odds)
        requires
            self.wf(),
            n >= 2,
        ensures
            r.players == n,
            r.field_size == self.field_sets().len(),
            as_ints(r.wins@) == self.hand_wins(),
            as_ints(r.ties@) == self.hand_ties(),
            forall|j: int| 0 <= j < r.wins@.len() ==> r.wins@[j] + r.ties@[j] <= r.field_size,
            forall|c: int|
                0 <= c < 10 ==> r.hand_counts@[c] == count_category(
                    strengths(self.player_sets()),
                    c,
                ),
            seq_sum(as_ints(r.hand_counts@)) == r.wins@.len(),
    {
        let m = self.matchup();
        let hand_counts = category_counts(&m.mine);
        Odds { players: n, field_size: m.field.len(), wins: m.wins, ties: m.ties, hand_counts }
    }
}

pub open spec fn power(b: int, e: nat) -> int
    decreases e,
{
    if e == 0 {
        1
    } else {
        b * power(b, (e - 1) as nat)
    }
}

/// Sum of the `n`-th powers of the values.
pub open spec fn power_sum(s: Seq<int>, n: nat) -> int
    decreases s.len(),
{
    if s.len() == 0 {
        0
    } else {
        power_sum(s.drop_last(), n) + power(s.last(), n)
    }
}

proof fn lemma_power_nonnegative(b: int, e: nat)
    requires
        b >= 0,
    ensures
        power(b, e) >= 0,
    decreases e,
{
    if e > 0 {
        lemma_power_nonnegative(b, (e - 1) as nat);
        assert(b * power(b, (e - 1) as nat) >= 0) by (nonlinear_arith)
            requires
                b >= 0,
                power(b, (e - 1) as nat) >= 0,
        ;
    }
}

/// More players lower the player's chance to beat them all. With `n` players, a hand that
/// beats `w` of `total` field hands wins with chance (w / total) to the power `n`; each
/// further player multiplies that by at most one, so the mean over the hands,
/// `power_sum(wins, n) / (hands * total^n)`, does not grow with `n`.
pub proof fn lemma_more_players_lower_win(wins: Seq<int>, total: int, n: nat)
    requires
        forall|i: int| 0 <= i < wins.len() ==> 0 <= #[trigger] wins[i] <= total,
    ensures
        power_sum(wins, n + 1) <= total * power_sum(wins, n),
    decreases wins.len(),
{
    if wins.len() > 0 {
        let t = wins.drop_last();
        assert forall|i: int| 0 <= i < t.len() implies 0 <= #[trigger] t[i] <= total by {
            assert(t[i] == wins[i]);
        }
        lemma_more_players_lower_win(t, total, n);
        let w = wins.last();
        let p = power(w, n);
        lemma_power_nonnegative(w, n);
        assert(power(w, n + 1) == w * p);
        assert(w * p <= total * p) by (nonlinear_arith)
            requires
                0 <= w <= total,
                p >= 0,
        ;
        let a = power_sum(t, n);
        assert(total * (a + p) == total * a + total * p) by (nonlinear_arith);
    }
}

} // verus!
