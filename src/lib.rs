//! Fixed-capacity ring buffers that overwrite their oldest element when
//! full, with the capacity a power of two fixed at compile time.
use vstd::prelude::*;

pub mod slots;
pub mod ring_buffers;
pub mod laws;

verus! {

use vstd::arithmetic::power2::is_pow2;

/// `i & (i - 1)` clears the lowest set bit of a nonzero `i`, so it is zero
/// exactly when `i` has a single bit set.
proof fn lemma_single_bit_is_power_of_two(i: usize)
    requires
        i > 0,
    ensures
        (i & (i - 1) as usize == 0) == is_pow2(i as int),
    decreases i,
{
    reveal(is_pow2);
    if i == 1 {
        assert(1usize & 0usize == 0) by (bit_vector);
    } else if i % 2 == 0 {
        let h: usize = i / 2;
        assert(i > 1 && i % 2 == 0 && h == i / 2 ==> ((i & (i - 1) as usize) == 0) == ((h & (h - 1) as usize)
            == 0)) by (bit_vector);
        lemma_single_bit_is_power_of_two(h);
    } else {
        assert(i > 1 && i % 2 == 1 ==> i & (i - 1) as usize != 0) by (bit_vector);
    }
}

/// Whether `i` is a power of two (1, 2, 4, ...); zero is not.
pub fn power_of_2(i: usize) -> (r: bool)
    ensures
        r == is_pow2(i as int),
{
    if i == 0 {
        proof {
            reveal(is_pow2);
        }
        return false;
    }
    proof {
        lemma_single_bit_is_power_of_two(i);
    }
    i & (i - 1) == 0
}

/// Contents of a buffer of `capacity` slots holding `c` (oldest first) after
/// `t` is pushed: when full, the oldest element makes room.
pub open spec fn contents_after_push<T>(c: Seq<T>, capacity: nat, t: T) -> Seq<T> {
    if c.len() < capacity {
        c.push(t)
    } else {
        c.drop_first().push(t)
    }
}

/// What a push into a buffer of `capacity` slots holding `c` hands back: the
/// evicted oldest element when the buffer is full, else nothing.
pub open spec fn evicted_by_push<T>(c: Seq<T>, capacity: nat) -> Option<T> {
    if c.len() < capacity {
        None
    } else {
        Some(c[0])
    }
}

/// Contents of a buffer holding `c` after a pull.
pub open spec fn contents_after_pull<T>(c: Seq<T>) -> Seq<T> {
    if c.len() == 0 {
        c
    } else {
        c.drop_first()
    }
}

/// What a pull from a buffer holding `c` returns: its oldest element, if any.
pub open spec fn pulled<T>(c: Seq<T>) -> Option<T> {
    if c.len() == 0 {
        None
    } else {
        Some(c[0])
    }
}

/// A fixed-capacity first-in first-out buffer that overwrites its oldest
/// element when full.
pub trait RingBuffer<T>: Sized {
    /// The buffer's internal consistency.
    spec fn well_formed(&self) -> bool;

    /// The held elements, oldest first.
    spec fn contents(&self) -> Seq<T>;

    /// The fixed number of slots.
    spec fn capacity(&self) -> nat;

    /// A well-formed buffer has a power-of-two capacity and holds at most that
    /// many elements.
    proof fn lemma_bounds(&self)
        requires
            self.well_formed(),
        ensures
            is_pow2(self.capacity() as int),
            self.contents().len() <= self.capacity(),
    ;

    /// Appends `t` as the newest element, evicting and returning the oldest
    /// one when the buffer is full.
    fn push(&mut self, t: T) -> (evicted: Option<T>)
        requires
            old(self).well_formed(),
        ensures
            final(self).well_formed(),
            final(self).capacity() == old(self).capacity(),
            final(self).contents() == contents_after_push(
                old(self).contents(),
                old(self).capacity(),
                t,
            ),
            evicted == evicted_by_push(old(self).contents(), old(self).capacity()),
    ;

    /// Removes and returns the oldest element; an empty buffer is left as it
    /// is and gives `None`.
    fn pull(&mut self) -> (r: Option<T>)
        requires
            old(self).well_formed(),
        ensures
            final(self).well_formed(),
            final(self).capacity() == old(self).capacity(),
            final(self).contents() == contents_after_pull(old(self).contents()),
            r == pulled(old(self).contents()),
            old(self).contents().len() == 0 ==> *final(self) == *old(self),
    ;
}

} // verus!
