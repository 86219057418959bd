//! A ring buffer whose slots live inline in an array of `N` slots.
use vstd::prelude::*;

verus! {

use vstd::arithmetic::power2::is_pow2;
use crate::slots::{
    cursor_modulus,
    lemma_slot_period,
    lemma_slots_distinct,
    lemma_reduce_once,
    lemma_wrap_shift,
};
use crate::{contents_after_pull, contents_after_push, evicted_by_push, pulled};
use crate::RingBuffer as _;

broadcast use vstd::array::group_array_axioms;

/// A buffer of `N` slots, `N` a power of two.
///
/// `write` and `read` are wrapping counters. The newest element sits in slot
/// `write % N`; the oldest one in slot `(read + 1) % N`, so that the element
/// at logical position `k` sits in slot `(read + 1 + k) % N`.
#[derive(Clone, Debug)]
pub struct RingBuffer<T, const N: usize> {
    store: [Option<T>; N],
    write: usize,
    read: usize,
    len: usize,
}

impl<T, const N: usize> RingBuffer<T, N> {
    /// Physical slot of logical position `k`, 0 being the oldest element.
    closed spec fn slot(&self, k: int) -> int {
        (self.read + 1 + k) % (N as int)
    }

    /// The read cursor: total pulls and evictions, wrapping.
    pub closed spec fn spec_read(&self) -> usize {
        self.read
    }

    /// The write cursor: total pushes, wrapping.
    pub closed spec fn spec_write(&self) -> usize {
        self.write
    }
}

/// Creates an empty buffer over `store`, whose slots are all emptied first.
pub fn new<T, const N: usize>(store: [Option<T>; N]) -> (r: RingBuffer<T, N>)
    requires
        is_pow2(N as int),
    ensures
        r.well_formed(),
        r.contents() == Seq::<T>::empty(),
        r.capacity() == N,
        r.spec_read() == 0,
        r.spec_write() == 0,
{
    proof {
        reveal(is_pow2);
    }
    let mut store = store;
    let mut i: usize = 0;
    while i < N
        invariant
            i <= N,
            forall|j: int| 0 <= j < i ==> store@[j] is None,
        decreases N - i,
    {
        store[i] = None;
        i = i + 1;
    }
    let r = RingBuffer { store, write: 0, read: 0, len: 0 };
    proof {
        lemma_reduce_once(0, cursor_modulus());
    }
    assert forall|k: int| 0 <= k < N implies r.store@[#[trigger] r.slot(k)] is None by {
        assert(0 <= r.slot(k) < N);
    }
    r
}

impl<T, const N: usize> crate::RingBuffer<T> for RingBuffer<T, N> {
    closed spec fn well_formed(&self) -> bool {
        &&& is_pow2(N as int)
        &&& self.len <= N
        &&& self.write as int == (self.read + self.len) % cursor_modulus()
        &&& forall|k: int|
            0 <= k < N ==> (self.store@[#[trigger] self.slot(k)] is Some <==> k < self.len)
    }

    closed spec fn contents(&self) -> Seq<T> {
        Seq::new(self.len as nat, |k: int| self.store@[self.slot(k)]->Some_0)
    }

    closed spec fn capacity(&self) -> nat {
        N as nat
    }

    proof fn lemma_bounds(&self) {
    }

    /// The write cursor always moves on by one; the read cursor moves on by
    /// one exactly when a full buffer evicts.
    fn push(&mut self, t: T) -> (evicted: Option<T>)
        ensures
            final(self).spec_write() as int == (old(self).spec_write() + 1) % cursor_modulus(),
            final(self).spec_read() as int == if old(self).contents().len() == N {
                (old(self).spec_read() + 1) % cursor_modulus()
            } else {
                old(self).spec_read() as int
            },
    {
        let ghost pre = *self;
        let ghost n = N as int;
        let ghost m = cursor_modulus();
        proof {
            reveal(is_pow2);
            lemma_reduce_once(self.write + 1, m);
        }
        if self.len == N {
            proof {
                lemma_wrap_shift(self.read + n, 0, n);
                lemma_slot_period(self.read as int, n);
                lemma_reduce_once(self.read + 1, cursor_modulus());
            }
            if self.write % N == self.read % N {
                self.read = self.read.wrapping_add(1);
            }
        } else {
            self.len += 1;
        }
        self.write = self.write.wrapping_add(1);
        let idx = self.write % N;
        proof {
            // the new write cursor is one past the old one, which is `len` past the read cursor
            lemma_wrap_shift(pre.write + 1, 0, n);
            lemma_wrap_shift(pre.read + pre.len, 1, n);
            if pre.len == N {
                lemma_slot_period(pre.read + 1, n);
                assert(idx == pre.slot(0));
            } else {
                assert(idx == pre.slot(pre.len as int));
            }
        }
        let mut item = Some(t);
        std::mem::swap(&mut self.store[idx], &mut item);
        proof {
            if pre.len == N {
                assert forall|k: int| 0 <= k < n implies self.store@[#[trigger] self.slot(k)]
                    == if k + 1 < n {
                    pre.store@[pre.slot(k + 1)]
                } else {
                    Some(t)
                } by {
                    lemma_wrap_shift(pre.read + 1, 1 + k, n);
                    if k + 1 < n {
                        lemma_slots_distinct(pre.read + 1, k + 1, 0, n);
                    }
                }
                assert(self.contents() =~= pre.contents().drop_first().push(t));
            } else {
                assert forall|k: int| 0 <= k < n implies self.store@[#[trigger] self.slot(k)]
                    == if k == pre.len {
                    Some(t)
                } else {
                    pre.store@[pre.slot(k)]
                } by {
                    if k != pre.len {
                        lemma_slots_distinct(pre.read + 1, k, pre.len as int, n);
                    }
                }
                assert(self.contents() =~= pre.contents().push(t));
            }
        }
        item
    }

    /// A pull from a nonempty buffer moves the read cursor on by one.
    fn pull(&mut self) -> (r: Option<T>)
        ensures
            final(self).spec_write() == old(self).spec_write(),
            final(self).spec_read() as int == if old(self).contents().len() > 0 {
                (old(self).spec_read() + 1) % cursor_modulus()
            } else {
                old(self).spec_read() as int
            },
    {
        let ghost pre = *self;
        let ghost n = N as int;
        if self.len > 0 {
            proof {
                reveal(is_pow2);
                lemma_reduce_once(self.read + self.len, cursor_modulus());
                lemma_reduce_once(self.read + 1, cursor_modulus());
            }
            if self.read != self.write {
                self.read = self.read.wrapping_add(1);
            }
            self.len -= 1;
            let idx = self.read % N;
            proof {
                lemma_wrap_shift(pre.read + 1, 0, n);
                assert(idx == pre.slot(0));
                lemma_slot_period(pre.read + 1, n);
                lemma_wrap_shift(pre.read + 1, pre.len - 1, n);
            }
            let r = self.store[idx].take();
            proof {
                assert forall|k: int| 0 <= k < n implies self.store@[#[trigger] self.slot(k)]
                    == if k + 1 < n {
                    pre.store@[pre.slot(k + 1)]
                } else {
                    None
                } by {
                    lemma_wrap_shift(pre.read + 1, 1 + k, n);
                    if k + 1 < n {
                        lemma_slots_distinct(pre.read + 1, k + 1, 0, n);
                    }
                }
                assert(self.contents() =~= pre.contents().drop_first());
            }
            r
        } else {
            None
        }
    }
}

/// A one-pass traversal that owns the slots of a consumed buffer and hands
/// out its elements, oldest first.
pub struct RingBufferIter<T, const N: usize> {
    n: usize,
    offset: usize,
    len: usize,
    buf: [Option<T>; N],
}

/// A one-pass traversal that borrows the slots of a buffer and hands out
/// references to its elements, oldest first.
pub struct RingBufferRefIter<'a, T, const N: usize> {
    n: usize,
    offset: usize,
    len: usize,
    buf: &'a [Option<T>; N],
}

/// Slot of the `n`-th element of a traversal starting at `offset`.
spec fn traversal_slot(n: int, offset: int, capacity: int) -> int {
    (n + offset) % capacity
}

/// `(n + offset) % N` for `n < N` and `offset <= N`, without overflow.
fn traversal_index<const N: usize>(n: usize, offset: usize) -> (idx: usize)
    requires
        n < N,
        offset <= N,
    ensures
        idx == traversal_slot(n as int, offset as int, N as int),
        idx < N,
{
    proof {
        lemma_reduce_once(n + offset, N as int);
    }
    let room = N - offset;
    if n < room {
        n + offset
    } else {
        n - room
    }
}

/// What a traversal over `buf` from the `n`-th to the `len`-th element holds.
spec fn traversal_well_formed<T, const N: usize>(
    n: int,
    offset: int,
    len: int,
    buf: [Option<T>; N],
) -> bool {
    &&& 0 <= n <= len <= N
    &&& 1 <= offset <= N
    &&& forall|j: int|
        n <= j < len ==> (#[trigger] buf@[traversal_slot(j, offset, N as int)]) is Some
}

/// The elements a traversal over `buf` has yet to hand out.
spec fn traversal_remaining<T, const N: usize>(
    n: int,
    offset: int,
    len: int,
    buf: [Option<T>; N],
) -> Seq<T> {
    Seq::new(
        (len - n) as nat,
        |i: int| buf@[traversal_slot(n + i, offset, N as int)]->Some_0,
    )
}

impl<T, const N: usize> RingBuffer<T, N> {
    /// The traversal starts one slot past the read cursor, at the oldest
    /// element, and covers `len` slots.
    proof fn lemma_traversal(&self)
        requires
            self.well_formed(),
        ensures
            traversal_well_formed(0, (self.read % N) + 1, self.len as int, self.store),
            traversal_remaining(0, (self.read % N) + 1, self.len as int, self.store)
                == self.contents(),
    {
        reveal(is_pow2);
        let offset = (self.read % N) + 1;
        assert forall|j: int| 0 <= j < N implies traversal_slot(j, offset, N as int)
            == self.slot(j) by {
            vstd::arithmetic::div_mod::lemma_add_mod_noop(self.read as int, 1 + j, N as int);
            vstd::arithmetic::div_mod::lemma_add_mod_noop(self.read as int % N as int, 1 + j, N as int);
            vstd::arithmetic::div_mod::lemma_mod_twice(self.read as int, N as int);
        }
        assert forall|j: int| 0 <= j < self.len implies (#[trigger] self.store@[traversal_slot(
            j,
            offset,
            N as int,
        )]) is Some by {
            assert(traversal_slot(j, offset, N as int) == self.slot(j));
        }
        assert(traversal_remaining(0, offset, self.len as int, self.store) =~= self.contents());
    }

    /// Number of held elements.
    pub fn len(&self) -> (r: usize)
        ensures
            r == self.contents().len(),
    {
        self.len
    }

    /// Consumes the buffer into a traversal of its elements, oldest first.
    pub fn into_iter(self) -> (it: RingBufferIter<T, N>)
        requires
            self.well_formed(),
        ensures
            it.well_formed(),
            it.remaining() == self.contents(),
    {
        proof {
            reveal(is_pow2);
            self.lemma_traversal();
        }
        RingBufferIter { n: 0, offset: (self.read % N) + 1, len: self.len, buf: self.store }
    }

    /// A traversal of references to the held elements, oldest first; the
    /// buffer is left as it is.
    pub fn iter(&self) -> (it: RingBufferRefIter<'_, T, N>)
        requires
            self.well_formed(),
        ensures
            it.well_formed(),
            it.remaining() == self.contents(),
    {
        proof {
            reveal(is_pow2);
            self.lemma_traversal();
        }
        RingBufferRefIter { n: 0, offset: (self.read % N) + 1, len: self.len, buf: &self.store }
    }
}

impl<T, const N: usize> RingBufferIter<T, N> {
    /// The traversal's internal consistency.
    pub closed spec fn well_formed(&self) -> bool {
        traversal_well_formed(self.n as int, self.offset as int, self.len as int, self.buf)
    }

    /// The elements not yet handed out, in the order they will come.
    pub closed spec fn remaining(&self) -> Seq<T> {
        traversal_remaining(self.n as int, self.offset as int, self.len as int, self.buf)
    }

    /// Hands out the next element, or `None` once all have been.
    pub fn next(&mut self) -> (r: Option<T>)
        requires
            old(self).well_formed(),
        ensures
            final(self).well_formed(),
            r == pulled(old(self).remaining()),
            final(self).remaining() == contents_after_pull(old(self).remaining()),
    {
        if self.n == self.len {
            assert(self.remaining() =~= Seq::<T>::empty());
            None
        } else {
            let ghost pre = *self;
            let idx = traversal_index::<N>(self.n, self.offset);
            let result = self.buf[idx].take();
            self.n += 1;
            proof {
                assert forall|j: int| self.n <= j < self.len implies #[trigger] traversal_slot(
                    j,
                    self.offset as int,
                    N as int,
                ) != idx by {
                    lemma_slots_distinct(self.offset as int, j, pre.n as int, N as int);
                }
                assert(self.remaining() =~= pre.remaining().drop_first());
            }
            result
        }
    }
}

impl<'a, T, const N: usize> RingBufferRefIter<'a, T, N> {
    /// The traversal's internal consistency.
    pub closed spec fn well_formed(&self) -> bool {
        traversal_well_formed(self.n as int, self.offset as int, self.len as int, *self.buf)
    }

    /// The elements not yet handed out, in the order they will come.
    pub closed spec fn remaining(&self) -> Seq<T> {
        traversal_remaining(self.n as int, self.offset as int, self.len as int, *self.buf)
    }

    /// Hands out a reference to the next element, or `None` once all have
    /// been.
    pub fn next(&mut self) -> (r: Option<&'a T>)
        requires
            old(self).well_formed(),
        ensures
            final(self).well_formed(),
            r is Some <==> old(self).remaining().len() > 0,
            r is Some ==> *r->Some_0 == old(self).remaining()[0],
            final(self).remaining() == contents_after_pull(old(self).remaining()),
    {
        if self.n == self.len {
            assert(self.remaining() =~= Seq::<T>::empty());
            None
        } else {
            let ghost pre = *self;
            let idx = traversal_index::<N>(self.n, self.offset);
            let result = self.buf[idx].as_ref();
            self.n += 1;
            assert(self.remaining() =~= pre.remaining().drop_first());
            result
        }
    }
}

} // verus!
