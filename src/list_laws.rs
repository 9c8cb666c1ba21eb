//! What holds of whole runs of list operations, stated over the element
//! sequences that the operations' contracts speak of.
use vstd::prelude::*;

verus! {

/// The elements after pushing each of `es` to the front of `base`, `es[0]`
/// first, as `List::push_front` does one at a time.
pub open spec fn pushed<T>(base: Seq<T>, es: Seq<T>) -> Seq<T>
    decreases es.len(),
{
    if es.len() == 0 {
        base
    } else {
        pushed(seq![es[0]] + base, es.drop_first())
    }
}

/// What `m` successive removals from the front of `v` hand out, as
/// `List::pop_front` and `Iterator::next` do: the front element while one
/// is left, `None` after that.
pub open spec fn drained<T>(v: Seq<T>, m: nat) -> Seq<Option<T>>
    decreases m,
{
    if m == 0 {
        Seq::empty()
    } else if v.len() == 0 {
        seq![None] + drained(v, (m - 1) as nat)
    } else {
        seq![Some(v[0])] + drained(v.drop_first(), (m - 1) as nat)
    }
}

/// The elements left after `m` successive removals from the front of `v`.
pub open spec fn after_removals<T>(v: Seq<T>, m: nat) -> Seq<T> {
    if m <= v.len() {
        v.skip(m as int)
    } else {
        Seq::empty()
    }
}

/// Pushing `es` one at a time puts them in front of `base` in reverse order.
pub proof fn lemma_pushed_reverses<T>(base: Seq<T>, es: Seq<T>)
    ensures
        pushed(base, es) == es.reverse() + base,
    decreases es.len(),
{
    if es.len() > 0 {
        lemma_pushed_reverses(seq![es[0]] + base, es.drop_first());
        assert(es.drop_first().reverse() + (seq![es[0]] + base) =~= es.reverse() + base);
    }
}

/// Removing from the front hands the elements out in order, then `None`
/// for each removal past the end.
pub proof fn lemma_drained_in_order<T>(v: Seq<T>, extra: nat)
    ensures
        drained(v, v.len() + extra) == v.map_values(|e: T| Some(e)) + Seq::new(
            extra,
            |i: int| None::<T>,
        ),
    decreases v.len() + extra,
{
    if v.len() > 0 {
        lemma_drained_in_order(v.drop_first(), extra);
        assert(v.drop_first().len() + extra == (v.len() + extra - 1) as nat);
        assert(v.map_values(|e: T| Some(e)) + Seq::new(extra, |i: int| None::<T>) =~= seq![
            Some(v[0]),
        ] + (v.drop_first().map_values(|e: T| Some(e)) + Seq::new(extra, |i: int| None::<T>)));
    } else if extra > 0 {
        lemma_drained_in_order(v, (extra - 1) as nat);
        assert(v.map_values(|e: T| Some(e)) + Seq::new(extra, |i: int| None::<T>) =~= seq![None]
            + (v.map_values(|e: T| Some(e)) + Seq::new((extra - 1) as nat, |i: int| None::<T>)));
    } else {
        assert(v.map_values(|e: T| Some(e)) + Seq::new(extra, |i: int| None::<T>) =~= Seq::<
            Option<T>,
        >::empty());
    }
}

/// Pushing `e1, ..., en` to the front of an empty list and then removing
/// from the front `n` times hands out `en, ..., e1`.
pub proof fn lemma_push_then_pop_is_lifo<T>(es: Seq<T>)
    ensures
        drained(pushed(Seq::empty(), es), es.len()) == es.reverse().map_values(
            |e: T| Some(e),
        ),
{
    lemma_pushed_reverses(Seq::empty(), es);
    assert(es.reverse() + Seq::empty() =~= es.reverse());
    lemma_drained_in_order(es.reverse(), 0);
    assert(es.reverse().map_values(|e: T| Some(e)) + Seq::new(0, |i: int| None::<T>)
        =~= es.reverse().map_values(|e: T| Some(e)));
}

/// After `k` pushes to an empty list and `m <= k` removals from its front,
/// `k - m` elements remain.
pub proof fn lemma_length_after_pushes_and_pops<T>(es: Seq<T>, m: nat)
    requires
        m <= es.len(),
    ensures
        after_removals(pushed(Seq::empty(), es), m).len() == es.len() - m,
{
    lemma_pushed_reverses(Seq::empty(), es);
    assert(es.reverse() + Seq::empty() =~= es.reverse());
}

/// After `k` pushes to an empty list and `m < k` removals from its front,
/// the front element is the latest pushed one that was not removed.
pub proof fn lemma_front_is_latest_kept_push<T>(es: Seq<T>, m: nat)
    requires
        m < es.len(),
    ensures
        after_removals(pushed(Seq::empty(), es), m).len() > 0,
        after_removals(pushed(Seq::empty(), es), m)[0] == es[es.len() - 1 - m],
{
    lemma_pushed_reverses(Seq::empty(), es);
    assert(es.reverse() + Seq::empty() =~= es.reverse());
}

/// Pushing `n` elements to an empty list and draining it hands them out in
/// reverse push order, and every read past the `n`th yields nothing.
pub proof fn lemma_drain_round_trip<T>(es: Seq<T>, extra: nat)
    ensures
        drained(pushed(Seq::empty(), es), es.len() + extra) == es.reverse().map_values(
            |e: T| Some(e),
        ) + Seq::new(extra, |i: int| None::<T>),
{
    lemma_pushed_reverses(Seq::empty(), es);
    assert(es.reverse() + Seq::empty() =~= es.reverse());
    lemma_drained_in_order(es.reverse(), extra);
}

} // verus!
