//! Properties of sequences of operations, stated over the contents model that
//! the contracts of `push` and `pull` use.
use vstd::prelude::*;

verus! {

use crate::{contents_after_pull, contents_after_push, evicted_by_push, pulled};

/// Contents after pushing each of `items` in turn into a buffer of
/// `capacity` slots that holds `c`.
pub open spec fn contents_after_pushes<T>(c: Seq<T>, capacity: nat, items: Seq<T>) -> Seq<T>
    decreases items.len(),
{
    if items.len() == 0 {
        c
    } else {
        contents_after_push(
            contents_after_pushes(c, capacity, items.drop_last()),
            capacity,
            items.last(),
        )
    }
}

/// What each of those pushes hands back, in order.
pub open spec fn evicted_by_pushes<T>(c: Seq<T>, capacity: nat, items: Seq<T>) -> Seq<Option<T>>
    decreases items.len(),
{
    if items.len() == 0 {
        Seq::empty()
    } else {
        evicted_by_pushes(c, capacity, items.drop_last()).push(
            evicted_by_push(contents_after_pushes(c, capacity, items.drop_last()), capacity),
        )
    }
}

/// Contents of a buffer holding `c` after `k` pulls.
pub open spec fn contents_after_pulls<T>(c: Seq<T>, k: nat) -> Seq<T>
    decreases k,
{
    if k == 0 {
        c
    } else {
        contents_after_pulls(contents_after_pull(c), (k - 1) as nat)
    }
}

/// What `k` successive pulls from a buffer holding `c` return, in order.
pub open spec fn pulls<T>(c: Seq<T>, k: nat) -> Seq<Option<T>>
    decreases k,
{
    if k == 0 {
        Seq::empty()
    } else {
        seq![pulled(c)] + pulls(contents_after_pull(c), (k - 1) as nat)
    }
}

/// Pulling as many times as a buffer holds elements returns them all, oldest
/// first, and empties it.
pub proof fn law_pulls_drain_in_order<T>(c: Seq<T>)
    ensures
        pulls(c, c.len()) == c.map_values(|x: T| Some(x)),
        contents_after_pulls(c, c.len()) == Seq::<T>::empty(),
    decreases c.len(),
{
    if c.len() == 0 {
        assert(c.map_values(|x: T| Some(x)) =~= Seq::<Option<T>>::empty());
        assert(c =~= Seq::<T>::empty());
    } else {
        law_pulls_drain_in_order(c.drop_first());
        assert(pulls(c, c.len()) =~= c.map_values(|x: T| Some(x)));
    }
}

/// Up to the capacity, pushes into an empty buffer evict nothing, and the
/// buffer then holds exactly what was pushed, so its length is the number of
/// pushes and pulls return the items in the order they were pushed.
pub proof fn law_fifo_within_capacity<T>(items: Seq<T>, capacity: nat)
    requires
        items.len() <= capacity,
    ensures
        contents_after_pushes(Seq::empty(), capacity, items) == items,
        evicted_by_pushes(Seq::empty(), capacity, items) == Seq::new(
            items.len(),
            |i: int| None::<T>,
        ),
        pulls(items, items.len()) == items.map_values(|x: T| Some(x)),
        contents_after_pulls(items, items.len()) == Seq::<T>::empty(),
    decreases items.len(),
{
    if items.len() == 0 {
        assert(evicted_by_pushes(Seq::empty(), capacity, items) =~= Seq::new(
            items.len(),
            |i: int| None::<T>,
        ));
        assert(items =~= Seq::<T>::empty());
    } else {
        law_fifo_within_capacity(items.drop_last(), capacity);
        assert(items.drop_last().push(items.last()) =~= items);
        assert(evicted_by_pushes(Seq::empty(), capacity, items) =~= Seq::new(
            items.len(),
            |i: int| None::<T>,
        ));
    }
    law_pulls_drain_in_order(items);
}

/// A push into a full buffer hands back its oldest element, keeps it full,
/// and leaves the newest `capacity` elements in order.
pub proof fn law_full_push_evicts_oldest<T>(c: Seq<T>, capacity: nat, t: T)
    requires
        capacity > 0,
        c.len() == capacity,
    ensures
        evicted_by_push(c, capacity) == Some(c[0]),
        contents_after_push(c, capacity, t).len() == capacity,
        contents_after_push(c, capacity, t) == c.push(t).subrange(1, capacity + 1int),
{
    assert(c.drop_first().push(t) =~= c.push(t).subrange(1, capacity + 1int));
}

/// Whatever was pushed into an empty buffer, it holds the most recent
/// `capacity` of the items (all of them if fewer), oldest first.
pub proof fn law_keeps_most_recent<T>(items: Seq<T>, capacity: nat)
    requires
        capacity > 0,
    ensures
        contents_after_pushes(Seq::empty(), capacity, items) == items.subrange(
            if items.len() > capacity {
                items.len() - capacity
            } else {
                0
            },
            items.len() as int,
        ),
    decreases items.len(),
{
    if items.len() == 0 {
        assert(items.subrange(0, 0) =~= Seq::<T>::empty());
    } else {
        let p = items.drop_last();
        law_keeps_most_recent(p, capacity);
        if p.len() < capacity {
            assert(p.subrange(0, p.len() as int).push(items.last()) =~= items.subrange(
                0,
                items.len() as int,
            ));
        } else {
            assert(p.subrange(p.len() - capacity, p.len() as int).drop_first().push(items.last())
                =~= items.subrange(items.len() - capacity, items.len() as int));
        }
    }
}

/// Pulling from an empty buffer any number of times returns nothing each
/// time and leaves it empty.
pub proof fn law_empty_pulls<T>(k: nat)
    ensures
        pulls(Seq::<T>::empty(), k) == Seq::new(k, |i: int| None::<T>),
        contents_after_pulls(Seq::<T>::empty(), k) == Seq::<T>::empty(),
    decreases k,
{
    if k > 0 {
        law_empty_pulls::<T>((k - 1) as nat);
    }
    assert(pulls(Seq::<T>::empty(), k) =~= Seq::new(k, |i: int| None::<T>));
}

} // verus!
