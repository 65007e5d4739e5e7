//! Fixed-capacity card and rank buffers, held in `heapless::Vec`.
use vstd::prelude::*;

use crate::card::{Card, CardNum};

verus! {

/// heapless::Vec, a vector of fixed capacity `N` kept inline; its contents are read
/// through the names below.
#[verifier::external_type_specification]
#[verifier::external_body]
#[verifier::reject_recursive_types(T)]
pub struct ExHeaplessVec<T, const N: usize>(heapless::Vec<T, N>);

/// The ranks held in a buffer of at most five ranks, in order.
pub uninterp spec fn rank_items(v: heapless::Vec<CardNum, 5>) -> Seq<CardNum>;

/// The cards held in a buffer of at most five cards, in order.
pub uninterp spec fn five_items(v: heapless::Vec<Card, 5>) -> Seq<Card>;

/// The cards held in a buffer of at most seven cards, in order.
pub uninterp spec fn seven_items(v: heapless::Vec<Card, 7>) -> Seq<Card>;

/// Relies on heapless::Vec::new: the new buffer is empty.
#[verifier::external_body]
pub(crate) fn ranks_new() -> (r: heapless::Vec<CardNum, 5>)
    ensures
        rank_items(r) == Seq::<CardNum>::empty(),
{
    heapless::Vec::new()
}

/// Relies on heapless::Vec::push: below capacity the rank is appended (`true`);
/// at capacity the buffer is unchanged (`false`).
#[verifier::external_body]
pub(crate) fn ranks_push(v: &mut heapless::Vec<CardNum, 5>, n: CardNum) -> (r: bool)
    ensures
        rank_items(*old(v)).len() < 5 ==> r,
        rank_items(*old(v)).len() < 5 ==> rank_items(*final(v)) == rank_items(*old(v)).push(n),
        rank_items(*old(v)).len() >= 5 ==> !r,
        rank_items(*old(v)).len() >= 5 ==> rank_items(*final(v)) == rank_items(*old(v)),
{
    v.push(n).is_ok()
}

/// Relies on heapless::Vec::as_slice: the slice shows the held ranks, at most five.
#[verifier::external_body]
pub(crate) fn ranks_slice(v: &heapless::Vec<CardNum, 5>) -> (r: &[CardNum])
    ensures
        r@ == rank_items(*v),
        r@.len() <= 5,
{
    v.as_slice()
}

/// Relies on heapless::Vec::from_slice: a slice of at most five cards is copied in order;
/// a longer one is refused.
#[verifier::external_body]
pub(crate) fn five_from_slice(s: &[Card]) -> (r: Result<heapless::Vec<Card, 5>, ()>)
    ensures
        s@.len() <= 5 ==> r is Ok && five_items(r->Ok_0) == s@,
        s@.len() > 5 ==> r is Err,
{
    heapless::Vec::from_slice(s)
}

/// Relies on heapless::Vec::as_slice: the slice shows the held cards, at most five.
#[verifier::external_body]
pub(crate) fn five_slice(v: &heapless::Vec<Card, 5>) -> (r: &[Card])
    ensures
        r@ == five_items(*v),
        r@.len() <= 5,
{
    v.as_slice()
}

/// Relies on heapless::Vec::new: the new buffer is empty.
#[verifier::external_body]
pub(crate) fn seven_new() -> (r: heapless::Vec<Card, 7>)
    ensures
        seven_items(r) == Seq::<Card>::empty(),
{
    heapless::Vec::new()
}

/// Relies on heapless::Vec::push: below capacity the card is appended (`true`);
/// at capacity the buffer is unchanged (`false`).
#[verifier::external_body]
pub(crate) fn seven_push(v: &mut heapless::Vec<Card, 7>, c: Card) -> (r: bool)
    ensures
        seven_items(*old(v)).len() < 7 ==> r,
        seven_items(*old(v)).len() < 7 ==> seven_items(*final(v)) == seven_items(*old(v)).push(c),
        seven_items(*old(v)).len() >= 7 ==> !r,
        seven_items(*old(v)).len() >= 7 ==> seven_items(*final(v)) == seven_items(*old(v)),
{
    v.push(c).is_ok()
}

/// Relies on heapless::Vec::pop: removes and returns the last card, `None` when empty.
#[verifier::external_body]
pub(crate) fn seven_pop(v: &mut heapless::Vec<Card, 7>) -> (r: Option<Card>)
    ensures
        seven_items(*old(v)).len() > 0 ==> r == Some(seven_items(*old(v)).last()),
        seven_items(*old(v)).len() > 0 ==> seven_items(*final(v)) == seven_items(*old(v)).drop_last(),
        seven_items(*old(v)).len() == 0 ==> r is None,
        seven_items(*old(v)).len() == 0 ==> seven_items(*final(v)) == seven_items(*old(v)),
{
    v.pop()
}

/// Relies on heapless::Vec::as_slice: the slice shows the held cards, at most seven.
#[verifier::external_body]
pub(crate) fn seven_slice(v: &heapless::Vec<Card, 7>) -> (r: &[Card])
    ensures
        r@ == seven_items(*v),
        r@.len() <= 7,
{
    v.as_slice()
}

} // verus!
