//! Fixed-capacity chronological sample storage.
//!
//! The buffer is backed by storage of twice the configured capacity: items
//! are appended at the back, and once the storage is exhausted the live
//! window is compacted to the front.  Compaction therefore happens once per
//! `capacity` pushes, while readers always see one contiguous slice in
//! chronological order.

use vstd::prelude::*;

verus! {

/// One step of buffer evolution: the readable window after `e` is appended
/// to a buffer of capacity `cap` whose window was `v`.  A full buffer drops
/// its oldest entry.
pub open spec fn push_step<T>(v: Seq<T>, e: T, cap: int) -> Seq<T> {
    if v.len() < cap {
        v.push(e)
    } else {
        v.subrange(v.len() - cap + 1, v.len() as int).push(e)
    }
}

/// The window reached by pushing all of `items`, oldest first, through an
/// initially empty buffer of capacity `cap`.
pub open spec fn window_after<T>(items: Seq<T>, cap: int) -> Seq<T>
    decreases items.len(),
{
    if items.len() == 0 {
        Seq::empty()
    } else {
        push_step(window_after(items.drop_last(), cap), items.last(), cap)
    }
}

/// The most recent `cap` entries of `items` (all of them if there are fewer).
pub open spec fn last_window<T>(items: Seq<T>, cap: int) -> Seq<T> {
    if items.len() <= cap {
        items
    } else {
        items.subrange(items.len() - cap, items.len() as int)
    }
}

/// Pushing any sequence of items through an empty buffer leaves exactly the
/// most recent `cap` of them, in order; in particular the window length is
/// always the smaller of the number of pushes and the capacity.
pub proof fn lemma_window_after_is_last_window<T>(items: Seq<T>, cap: int)
    requires
        1 <= cap,
    ensures
        window_after(items, cap) == last_window(items, cap),
        window_after(items, cap).len() == if items.len() <= cap {
            items.len() as int
        } else {
            cap
        },
    decreases items.len(),
{
    if items.len() == 0 {
    } else {
        let prev = items.drop_last();
        lemma_window_after_is_last_window(prev, cap);
        assert(window_after(items, cap) =~= last_window(items, cap));
    }
}

/// Fixed-capacity circular store with a contiguous chronological view.
#[derive(Debug)]
pub struct FixedRingBuffer<T> {
    buf: Vec<T>,
    cap: usize,
    head: usize,
}

impl<T> View for FixedRingBuffer<T> {
    type V = Seq<T>;

    closed spec fn view(&self) -> Seq<T> {
        self.buf@.subrange(self.head as int, self.buf@.len() as int)
    }
}

impl<T: Copy> FixedRingBuffer<T> {
    /// Configured capacity: the largest number of items the window can hold.
    pub closed spec fn capacity(&self) -> int {
        self.cap as int
    }

    /// Internal consistency: the backing storage never exceeds twice the
    /// capacity, and the read offset trails the write end by at most the
    /// capacity.
    pub closed spec fn inv(&self) -> bool {
        &&& 1 <= self.cap
        &&& self.cap <= usize::MAX / 2
        &&& self.buf@.len() <= 2 * self.cap
        &&& self.head as int == if self.buf@.len() <= self.cap {
            0int
        } else {
            self.buf@.len() - self.cap
        }
    }

    /// An empty buffer that will retain the most recent `capacity` items.
    pub fn new(capacity: usize) -> (r: Self)
        requires
            1 <= capacity,
            capacity <= usize::MAX / 2,
        ensures
            r.inv(),
            r@ == Seq::<T>::empty(),
            r.capacity() == capacity,
    {
        FixedRingBuffer { buf: Vec::with_capacity(2 * capacity), cap: capacity, head: 0 }
    }

    /// Number of items currently in the window.
    pub fn len(&self) -> (n: usize)
        requires
            self.inv(),
        ensures
            n == self@.len(),
    {
        self.buf.len() - self.head
    }

    /// Appends `elem`; if the window already holds `capacity` items, the
    /// oldest one is evicted.
    pub fn push(&mut self, elem: T)
        requires
            old(self).inv(),
        ensures
            final(self).inv(),
            final(self).capacity() == old(self).capacity(),
            final(self)@ == push_step(old(self)@, elem, old(self).capacity()),
    {
        if self.buf.len() == 2 * self.cap {
            let ghost orig = self.buf@;
            // Shift the live window, minus its oldest entry, to the front.
            let mut i: usize = 0;
            while i < self.cap - 1
                invariant
                    old(self).inv(),
                    self.cap == old(self).cap,
                    self.head == old(self).head,
                    i <= self.cap - 1,
                    self.buf@.len() == orig.len(),
                    orig.len() == 2 * self.cap,
                    self.head == self.cap,
                    forall|j: int| 0 <= j < i ==> self.buf@[j] == orig[self.head + 1 + j],
                    forall|j: int| i <= j < orig.len() ==> self.buf@[j] == orig[j],
                decreases self.cap - i,
            {
                let v = self.buf[self.head + 1 + i];
                self.buf[i] = v;
                i += 1;
            }
            self.buf.truncate(self.cap - 1);
            self.head = 0;
            assert(self.buf@ =~= orig.subrange(
                old(self).cap + 1,
                2 * old(self).cap as int,
            ));
        }
        self.buf.push(elem);
        if self.buf.len() > self.cap {
            self.head = self.head + 1;
        }
        assert(self@ =~= push_step(old(self)@, elem, old(self).capacity()));
    }

    /// The window never outgrows the configured capacity.
    pub proof fn lemma_len_bound(&self)
        requires
            self.inv(),
        ensures
            self@.len() <= self.capacity(),
            1 <= self.capacity(),
    {
    }

    /// The current window, oldest first, as one contiguous slice.
    pub fn as_slice(&self) -> (r: &[T])
        requires
            self.inv(),
        ensures
            r@ == self@,
    {
        vstd::slice::slice_subrange(self.buf.as_slice(), self.head, self.buf.len())
    }

    /// Iterates over the current window in chronological order.
    pub fn iter(&self) -> (it: std::slice::Iter<'_, T>)
        requires
            self.inv(),
        ensures
            vstd::std_specs::iter::IteratorSpec::remaining(&it) == self@.as_ref(),
    {
        broadcast use vstd::std_specs::slice::axiom_spec_slice_iter;

        self.as_slice().iter()
    }

    /// The most recently pushed item.
    pub fn last(&self) -> (r: &T)
        requires
            self.inv(),
            self@.len() > 0,
        ensures
            *r == self@.last(),
    {
        &self.buf[self.buf.len() - 1]
    }
}

} // verus!
