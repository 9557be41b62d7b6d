//! Fixed-capacity ring buffers that keep the most recent data written to them.
//!
//! A [`RingBuffer`] stores a bounded, continuously overwritten stream of
//! copyable elements in a fixed amount of storage: once the buffer is full,
//! new writes silently evict the oldest data.  The buffered contents can be
//! linearized on demand into a single contiguous, chronologically ordered
//! view.  The module [`ring_buffer`] specializes the same mechanics to UTF-8
//! text, taking care never to expose a string that starts in the middle of a
//! multi-byte character.
use core::marker::PhantomData;
use vstd::prelude::*;

pub mod ring_buffer;

verus! {

broadcast use vstd::array::group_array_axioms;

/// The last `cap` elements of `s`, or all of `s` when it is shorter.
///
/// This is the window of data that a ring buffer of capacity `cap` retains
/// after the stream `s` has been written into it.
pub open spec fn last_window<T>(s: Seq<T>, cap: nat) -> Seq<T> {
    if s.len() <= cap {
        s
    } else {
        s.skip(s.len() - cap)
    }
}

/// The retained window holds every element of the stream when the stream is
/// no longer than the capacity, and otherwise exactly the last `cap`
/// elements of the stream, in their original order.
pub proof fn lemma_last_window_len<T>(s: Seq<T>, cap: nat)
    ensures
        s.len() <= cap ==> last_window(s, cap) == s,
        s.len() > cap ==> last_window(s, cap).len() == cap,
        forall|i: int|
            0 <= i < last_window(s, cap).len() ==> last_window(s, cap)[i] == s[s.len()
                - last_window(s, cap).len() + i],
{
}

/// Retaining a window, appending one element and retaining a window again
/// keeps exactly the same elements as appending to the full stream:
/// the ring buffer may forget evicted data without changing what it retains.
pub proof fn lemma_last_window_push<T>(s: Seq<T>, cap: nat, x: T)
    ensures
        last_window(last_window(s, cap).push(x), cap) == last_window(s.push(x), cap),
{
    if cap == 0 {
        assert(last_window(last_window(s, cap).push(x), cap) =~= last_window(s.push(x), cap));
    } else if s.len() < cap {
        assert(last_window(last_window(s, cap).push(x), cap) =~= last_window(s.push(x), cap));
    } else {
        assert(last_window(last_window(s, cap).push(x), cap) =~= last_window(s.push(x), cap));
    }
}

/// Advancing the write cursor one slot at a time agrees with advancing it
/// modulo the capacity.
proof fn lemma_mod_step(a: int, m: int)
    requires
        m > 0,
        a >= 0,
    ensures
        ((a % m) + 1) % m == (a + 1) % m,
{
    vstd::arithmetic::div_mod::lemma_add_mod_noop(a, 1, m);
    if m == 1 {
        assert(((a % 1) + 1) % 1 == (a + 1) % 1) by (nonlinear_arith);
    } else {
        vstd::arithmetic::div_mod::lemma_small_mod(1, m as nat);
    }
}

/// Fixed-length backing storage for a ring buffer: a bounded sequence of
/// slots that can be read and overwritten, but never grows or shrinks.
///
/// Any fixed-size array and any pre-sized `Vec` used purely as fixed storage
/// satisfies this interface.
pub trait BufferStorage<T>: Sized {
    /// The current contents of the slots, as a mathematical sequence.
    spec fn slots(&self) -> Seq<T>;

    /// The number of slots, which never changes over the storage's lifetime.
    fn slot_count(&self) -> (n: usize)
        ensures
            n == self.slots().len(),
    ;

    /// Read the slot at index `i`.
    fn read_slot(&self, i: usize) -> (t: T)
        requires
            i < self.slots().len(),
        ensures
            t == self.slots()[i as int],
    ;

    /// Overwrite the slot at index `i`, leaving every other slot unchanged.
    fn write_slot(&mut self, i: usize, t: T)
        requires
            i < old(self).slots().len(),
        ensures
            final(self).slots() == old(self).slots().update(i as int, t),
    ;
}

impl<T: Copy, const N: usize> BufferStorage<T> for [T; N] {
    open spec fn slots(&self) -> Seq<T> {
        self@
    }

    fn slot_count(&self) -> (n: usize) {
        N
    }

    fn read_slot(&self, i: usize) -> (t: T) {
        self[i]
    }

    fn write_slot(&mut self, i: usize, t: T) {
        self[i] = t;
    }
}

impl<T: Copy> BufferStorage<T> for Vec<T> {
    open spec fn slots(&self) -> Seq<T> {
        self@
    }

    fn slot_count(&self) -> (n: usize) {
        self.len()
    }

    fn read_slot(&self, i: usize) -> (t: T) {
        self[i]
    }

    fn write_slot(&mut self, i: usize, t: T) {
        self[i] = t;
    }
}

/// Reverse the slots of `storage` in the index range `[lo, hi)`, leaving
/// every slot outside the range unchanged.
fn reverse_range<S, T>(storage: &mut S, lo: usize, hi: usize) where S: BufferStorage<T>, T: Copy
    requires
        lo <= hi <= old(storage).slots().len(),
    ensures
        final(storage).slots().len() == old(storage).slots().len(),
        forall|k: int|
            0 <= k < old(storage).slots().len() && !(lo <= k < hi) ==> final(storage).slots()[k]
                == old(storage).slots()[k],
        forall|k: int|
            lo <= k < hi ==> final(storage).slots()[k] == old(storage).slots()[lo + hi - 1 - k],
{
    let mut a = lo;
    let mut b = hi;
    while b - a > 1
        invariant
            lo <= a <= b <= hi <= storage.slots().len(),
            a - lo == hi - b,
            storage.slots().len() == old(storage).slots().len(),
            forall|k: int|
                0 <= k < old(storage).slots().len() && !(lo <= k < hi) ==> storage.slots()[k]
                    == old(storage).slots()[k],
            forall|k: int|
                lo <= k < a ==> storage.slots()[k] == old(storage).slots()[lo + hi - 1 - k],
            forall|k: int|
                b <= k < hi ==> storage.slots()[k] == old(storage).slots()[lo + hi - 1 - k],
            forall|k: int| a <= k < b ==> storage.slots()[k] == old(storage).slots()[k],
        decreases b - a,
    {
        let x = storage.read_slot(a);
        let y = storage.read_slot(b - 1);
        storage.write_slot(a, y);
        storage.write_slot(b - 1, x);
        a += 1;
        b -= 1;
    }
}

/// A `RingBuffer` is a ring buffer providing the illusion of storing an
/// unlimited stream of sized objects of a given type in a finite amount
/// of space.  Writes past the capacity wrap around and overwrite the
/// oldest data; nothing is ever allocated beyond the backing storage.
#[derive(Debug)]
pub struct RingBuffer<S, T> {
    /// The underlying storage for the ring buffer.
    storage: S,
    /// Whether the ring buffer has wrapped around since its last rotation.
    wrapped: bool,
    /// The position of the next slot to be written.
    end: usize,
    _marker: PhantomData<T>,
}

impl<S, T> View for RingBuffer<S, T> where S: BufferStorage<T>, T: Copy {
    type V = Seq<T>;

    /// The abstract contents of the ring buffer: the retained elements in
    /// chronological order, oldest first.
    closed spec fn view(&self) -> Seq<T> {
        if self.wrapped {
            self.storage.slots().skip(self.end as int) + self.storage.slots().take(self.end as int)
        } else {
            self.storage.slots().take(self.end as int)
        }
    }
}

impl<S, T> RingBuffer<S, T> where S: BufferStorage<T>, T: Copy + Default {
    /// The internal state the buffer keeps between operations is consistent.
    ///
    /// `end` may equal the capacity only in the linearized full state that a
    /// rotation leaves behind; a wrapped buffer always has a strictly
    /// in-bounds write position.
    pub closed spec fn wf(&self) -> bool {
        &&& self.end <= self.spec_capacity()
        &&& self.wrapped ==> self.end < self.spec_capacity()
    }

    /// The fixed number of elements the buffer can hold.
    pub closed spec fn spec_capacity(&self) -> nat {
        self.storage.slots().len()
    }

    /// Whether the buffer is in the wrapped state, in which the write
    /// position points at the oldest retained element.
    pub closed spec fn spec_wrapped(&self) -> bool {
        self.wrapped
    }

    /// The position of the next slot to be written.
    pub closed spec fn spec_end(&self) -> nat {
        self.end as nat
    }

    /// The raw slot contents of the backing storage.
    pub closed spec fn storage_view(&self) -> Seq<T> {
        self.storage.slots()
    }

    /// The backing storage is fixed-length: it always holds exactly
    /// `spec_capacity()` slots, so no operation resizes it.
    pub proof fn lemma_storage_len_is_capacity(&self)
        ensures
            self.storage_view().len() == self.spec_capacity(),
    {
    }

    /// Determine whether the ring buffer is empty, i.e. it contains no data.
    pub fn is_empty(&self) -> (r: bool)
        requires
            self.wf(),
        ensures
            r == (self@.len() == 0),
    {
        self.end == 0 && !self.wrapped
    }

    /// Determine the number of items currently stored in the ring buffer.
    pub fn len(&self) -> (n: usize)
        requires
            self.wf(),
        ensures
            n == self@.len(),
    {
        if self.wrapped {
            self.storage.slot_count()
        } else {
            self.end
        }
    }

    /// The maximum number of items that a ring buffer can store.
    pub fn capacity(&self) -> (n: usize)
        ensures
            n == self.spec_capacity(),
    {
        self.storage.slot_count()
    }

    /// Calculate the amount of space in number of items remaining in the ring buffer.
    pub fn space_remaining(&self) -> (n: usize)
        requires
            self.wf(),
        ensures
            n == self.spec_capacity() - self@.len(),
    {
        self.capacity() - self.len()
    }

    /// Determine whether the ring buffer is full.
    pub fn is_full(&self) -> (r: bool)
        requires
            self.wf(),
        ensures
            r == (self@.len() == self.spec_capacity()),
    {
        self.space_remaining() == 0
    }

    /// Construct a new ring buffer.
    ///
    /// The storage's length fixes the capacity; every slot is overwritten
    /// with the element type's default value and the buffer starts empty.
    pub fn new(storage: S) -> (rb: RingBuffer<S, T>)
        ensures
            rb.wf(),
            rb@ == Seq::<T>::empty(),
            !rb.spec_wrapped(),
            rb.spec_end() == 0,
            rb.spec_capacity() == storage.slots().len(),
            forall|k: int|
                0 <= k < rb.storage_view().len() ==> call_ensures(
                    T::default,
                    (),
                    #[trigger] rb.storage_view()[k],
                ),
    {
        let mut ring_buffer = RingBuffer { storage, wrapped: false, end: 0, _marker: PhantomData };

        ring_buffer.clear();
        ring_buffer
    }

    /// Empty out the ring buffer.
    ///
    /// The buffer returns to the unwrapped state with the write position at
    /// the start, whatever state it was in before, and every slot is
    /// overwritten with the element type's default value, so no stale
    /// element survives.  The storage keeps its length.
    pub fn clear(&mut self)
        ensures
            final(self).wf(),
            final(self)@ == Seq::<T>::empty(),
            !final(self).spec_wrapped(),
            final(self).spec_end() == 0,
            final(self).spec_capacity() == old(self).spec_capacity(),
            final(self).storage_view().len() == old(self).storage_view().len(),
            forall|k: int|
                0 <= k < final(self).storage_view().len() ==> call_ensures(
                    T::default,
                    (),
                    #[trigger] final(self).storage_view()[k],
                ),
    {
        self.wrapped = false;
        self.end = 0;
        let count = self.storage.slot_count();
        let mut i: usize = 0;
        while i < count
            invariant
                i <= count,
                count == self.storage.slots().len(),
                !self.wrapped,
                self.end == 0,
                forall|k: int|
                    0 <= k < i ==> call_ensures(
                        T::default,
                        (),
                        #[trigger] self.storage.slots()[k],
                    ),
            decreases count - i,
        {
            let blank = T::default();
            self.storage.write_slot(i, blank);
            i += 1;
        }
        assert(self@ =~= Seq::<T>::empty());
    }

    /// Append a single element, evicting the oldest element when the buffer
    /// is already full.
    fn push_item(&mut self, item: T)
        requires
            old(self).wf(),
        ensures
            final(self).wf(),
            final(self).spec_capacity() == old(self).spec_capacity(),
            final(self)@ == last_window(old(self)@.push(item), old(self).spec_capacity()),
            old(self).spec_capacity() == 0 ==> *final(self) == *old(self),
            old(self).spec_capacity() > 0 ==> final(self).spec_end() == (old(self).spec_end() + 1)
                % old(self).spec_capacity(),
            old(self).spec_capacity() > 0 ==> final(self).spec_end() < final(self).spec_capacity(),
            old(self).spec_capacity() > 0 ==> (final(self).spec_wrapped() == (
            old(self).spec_wrapped() || old(self)@.len() + 1 >= old(self).spec_capacity())),
    {
        let count = self.storage.slot_count();
        if count == 0 {
            assert(self@ =~= last_window(old(self)@.push(item), old(self).spec_capacity()));
            return ;
        }
        let mut position = self.end;
        if position == count {
            // The linearized full state a rotation leaves behind: the next
            // write continues at the start of the storage, over the oldest
            // element.
            self.wrapped = true;
            position = 0;
        }
        self.storage.write_slot(position, item);
        position += 1;
        if position == count {
            self.wrapped = true;
            position = 0;
        }
        self.end = position;
        assert(self@ =~= last_window(old(self)@.push(item), old(self).spec_capacity()));
        proof {
            let cap = old(self).spec_capacity() as int;
            let start = old(self).spec_end() as int;
            if start + 1 < cap {
                vstd::arithmetic::div_mod::lemma_small_mod((start + 1) as nat, cap as nat);
            } else if start + 1 == cap {
                vstd::arithmetic::div_mod::lemma_mod_self_0(cap);
            } else {
                // The linearized full state: `start == cap`, and the cursor
                // moved to slot 1 (or back to 0 when the capacity is 1).
                vstd::arithmetic::div_mod::lemma_add_mod_noop(cap, 1, cap);
                vstd::arithmetic::div_mod::lemma_mod_self_0(cap);
                vstd::arithmetic::div_mod::lemma_mod_twice(1, cap);
                if cap > 1 {
                    vstd::arithmetic::div_mod::lemma_small_mod(1nat, cap as nat);
                }
            }
        }
    }

    /// Write a slice of objects into the ring buffer.
    ///
    /// Every element is appended in order; once the buffer is full each
    /// further element evicts the oldest one, so the buffer is left holding
    /// exactly the most recent `capacity` elements of the combined stream.
    /// The write itself always succeeds.
    pub fn write(&mut self, items: &[T]) -> (r: Result<(), ()>)
        requires
            old(self).wf(),
        ensures
            final(self).wf(),
            final(self).spec_capacity() == old(self).spec_capacity(),
            final(self)@ == last_window(old(self)@ + items@, old(self).spec_capacity()),
            old(self).spec_capacity() == 0 ==> *final(self) == *old(self),
            items@.len() == 0 ==> *final(self) == *old(self),
            old(self).spec_capacity() > 0 && items@.len() > 0 ==> final(self).spec_end() == (
            old(self).spec_end() + items@.len()) % old(self).spec_capacity(),
            old(self).spec_capacity() > 0 && items@.len() > 0 ==> final(self).spec_end()
                < final(self).spec_capacity(),
            old(self).spec_capacity() > 0 ==> (final(self).spec_wrapped() == (
            old(self).spec_wrapped() || (items@.len() > 0 && old(self)@.len() + items@.len()
                >= old(self).spec_capacity()))),
            r == Ok::<(), ()>(()),
    {
        let ghost cap = old(self).spec_capacity();
        let mut i: usize = 0;
        assert(old(self)@ + items@.take(0) =~= old(self)@);
        assert(self@ == last_window(old(self)@ + items@.take(0), cap));
        while i < items.len()
            invariant
                i <= items@.len(),
                self.wf(),
                self.spec_capacity() == cap,
                self@ == last_window(old(self)@ + items@.take(i as int), cap),
                cap == 0 ==> *self == *old(self),
                i == 0 ==> *self == *old(self),
                cap > 0 && i > 0 ==> self.spec_end() == ((old(self).spec_end() + i) as int) % (cap as int),
                cap > 0 && i > 0 ==> self.spec_end() < cap,
                cap > 0 ==> (self.spec_wrapped() == (old(self).spec_wrapped() || (i > 0
                    && old(self)@.len() + i >= cap))),
            decreases items@.len() - i,
        {
            let item = items[i];
            proof {
                assert((old(self)@ + items@.take(i as int)).len() == old(self)@.len() + i);
            }
            self.push_item(item);
            proof {
                assert((old(self)@ + items@.take(i as int)).push(item) =~= old(self)@
                    + items@.take(i + 1));
                lemma_last_window_push(old(self)@ + items@.take(i as int), cap, item);
                if cap > 0 && i > 0 {
                    lemma_mod_step((old(self).spec_end() + i) as int, cap as int);
                }
            }
            i += 1;
        }
        assert(old(self)@ + items@.take(items@.len() as int) =~= old(self)@ + items@);
        Ok(())
    }

    /// Linearize the buffer in place: bring the oldest retained element to
    /// index 0 so that the retained window is exactly the storage prefix
    /// `[0, len)` in chronological order.
    ///
    /// The abstract contents are unchanged, and rotating an already
    /// linearized (unwrapped) buffer is a no-op.
    pub fn rotate(&mut self)
        requires
            old(self).wf(),
        ensures
            final(self).wf(),
            final(self).spec_capacity() == old(self).spec_capacity(),
            final(self)@ == old(self)@,
            !final(self).spec_wrapped(),
            final(self).spec_end() == final(self)@.len(),
            final(self).storage_view().take(final(self)@.len() as int) == final(self)@,
            !old(self).spec_wrapped() ==> *final(self) == *old(self),
    {
        if self.wrapped {
            let count = self.storage.slot_count();
            let e = self.end;
            let ghost s0 = self.storage.slots();
            // A left rotation by `e`, done as three in-place reversals:
            // reverse the two halves separately, then the whole storage.
            reverse_range(&mut self.storage, 0, e);
            let ghost s1 = self.storage.slots();
            reverse_range(&mut self.storage, e, count);
            let ghost s2 = self.storage.slots();
            reverse_range(&mut self.storage, 0, count);
            let ghost s3 = self.storage.slots();
            self.end = count;
            self.wrapped = false;
            proof {
                assert forall|k: int| 0 <= k < count implies s3[k] == (s0.skip(e as int) + s0.take(
                    e as int,
                ))[k] by {
                    if k < count - e {
                        assert(s3[k] == s2[count - 1 - k]);
                        assert(s2[count - 1 - k] == s1[e + k]);
                        assert(s1[e + k] == s0[e + k]);
                    } else {
                        assert(s3[k] == s2[count - 1 - k]);
                        assert(s2[count - 1 - k] == s1[count - 1 - k]);
                        assert(s1[count - 1 - k] == s0[k - (count - e)]);
                    }
                }
                assert(self@ =~= old(self)@);
                assert(self.storage_view().take(self@.len() as int) =~= self@);
            }
        } else {
            proof {
                assert(self.storage_view().take(self@.len() as int) =~= self@);
            }
        }
    }

    /// Extract the buffered contents: the retained elements in chronological
    /// order, oldest first.
    ///
    /// The buffer is linearized in place first, but its abstract contents are
    /// unchanged, so calling `extract` repeatedly without intervening writes
    /// returns identical results.
    pub fn extract(&mut self) -> (r: Vec<T>)
        requires
            old(self).wf(),
        ensures
            final(self).wf(),
            final(self).spec_capacity() == old(self).spec_capacity(),
            final(self)@ == old(self)@,
            r@ == old(self)@,
            !final(self).spec_wrapped(),
            !old(self).spec_wrapped() ==> *final(self) == *old(self),
    {
        self.rotate();
        let e = self.end;
        let mut out: Vec<T> = Vec::new();
        let mut i: usize = 0;
        while i < e
            invariant
                i <= e,
                e == self@.len(),
                self.wf(),
                !self.spec_wrapped(),
                e == self.spec_end(),
                out@ == self@.take(i as int),
            decreases e - i,
        {
            let t = self.storage.read_slot(i);
            out.push(t);
            i += 1;
        }
        assert(out@ =~= self@);
        out
    }

    /// A copy of the raw slot contents of the backing storage.
    pub fn storage_snapshot(&self) -> (r: Vec<T>)
        ensures
            r@ == self.storage_view(),
    {
        let count = self.storage.slot_count();
        let mut out: Vec<T> = Vec::new();
        let mut i: usize = 0;
        while i < count
            invariant
                i <= count,
                count == self.storage_view().len(),
                out@ == self.storage_view().take(i as int),
            decreases count - i,
        {
            let t = self.storage.read_slot(i);
            out.push(t);
            i += 1;
        }
        assert(out@ =~= self.storage_view());
        out
    }

    /// Whether the buffer is currently in the wrapped state.
    pub fn is_wrapped(&self) -> (r: bool)
        ensures
            r == self.spec_wrapped(),
    {
        self.wrapped
    }

    /// The index of the next slot to be written.
    pub fn end_index(&self) -> (n: usize)
        ensures
            n == self.spec_end(),
    {
        self.end
    }
}

} // verus!
