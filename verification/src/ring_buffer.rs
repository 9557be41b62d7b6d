//! A ring buffer specialized to UTF-8 text.
//!
//! The [`RingBuffer`] here stores the raw bytes of UTF-8 strings with the
//! same wrap-and-overwrite mechanics as the generic element ring, and adds a
//! boundary scan on extraction: when the retained byte window starts in the
//! middle of a multi-byte character — because the wrap boundary truncated
//! that character — the window is trimmed forward to the first character
//! boundary, so the extracted string is always valid UTF-8 and never begins
//! with a continuation byte.
use vstd::prelude::*;
use vstd::utf8::*;

verus! {

/// True when `b` can start the UTF-8 encoding of a character, i.e. it is a
/// leading byte of width 1, 2, 3 or 4 and not a continuation byte.
pub open spec fn leading_byte(b: u8) -> bool {
    ||| is_leading_byte_width_1(b)
    ||| is_leading_byte_width_2(b)
    ||| is_leading_byte_width_3(b)
    ||| is_leading_byte_width_4(b)
}

/// Decide whether `b` can start the UTF-8 encoding of a character.
pub fn is_utf8_leading_byte(b: u8) -> (r: bool)
    ensures
        r == leading_byte(b),
{
    b < 0x80 || (0xc0 <= b && b <= 0xdf) || (0xe0 <= b && b <= 0xef) || (0xf0 <= b && b <= 0xf7)
}

/// True when `w` is a suffix of some valid UTF-8 byte stream: at most one
/// truncated character's trailing continuation bytes, followed by a valid
/// UTF-8 encoding.
///
/// Every byte window a text ring retains has this shape, because the window
/// is the most recent bytes of a concatenation of UTF-8 strings.
pub open spec fn utf8_stream_suffix(w: Seq<u8>) -> bool {
    exists|j: int|
        0 <= j <= w.len() && (forall|i: int| 0 <= i < j ==> is_continuation_byte(#[trigger] w[i]))
            && valid_utf8(#[trigger] w.skip(j))
}

/// The byte window trimmed forward to the first UTF-8 leading byte: the
/// suffix of `w` starting at the first leading byte, or the empty sequence
/// when `w` holds no leading byte at all.
pub open spec fn trim_to_boundary(w: Seq<u8>) -> Seq<u8>
    decreases w.len(),
{
    if w.len() == 0 {
        w
    } else if leading_byte(w[0]) {
        w
    } else {
        trim_to_boundary(w.skip(1))
    }
}

/// The text a text ring presents for the byte window `w`: the decoding of
/// the window trimmed forward to the first character boundary.
pub open spec fn window_text(w: Seq<u8>) -> Seq<char>
    recommends
        utf8_stream_suffix(w),
{
    decode_utf8(trim_to_boundary(w))
}

/// The empty window is a suffix of a valid UTF-8 stream.
pub proof fn lemma_stream_suffix_empty()
    ensures
        utf8_stream_suffix(Seq::<u8>::empty()),
{
    let w = Seq::<u8>::empty();
    assert(w.skip(0) =~= w);
    assert(valid_utf8(w.skip(0)));
}

/// Appending a valid UTF-8 encoding to a suffix of a valid UTF-8 stream
/// yields a suffix of a valid UTF-8 stream.
pub proof fn lemma_stream_suffix_append(w: Seq<u8>, u: Seq<u8>)
    requires
        utf8_stream_suffix(w),
        valid_utf8(u),
    ensures
        utf8_stream_suffix(w + u),
{
    let j = choose|j: int|
        0 <= j <= w.len() && (forall|i: int| 0 <= i < j ==> is_continuation_byte(#[trigger] w[i]))
            && valid_utf8(#[trigger] w.skip(j));
    valid_utf8_concat(w.skip(j), u);
    assert((w + u).skip(j) =~= w.skip(j) + u);
    assert(forall|i: int| 0 <= i < j ==> is_continuation_byte(#[trigger] (w + u)[i]));
    assert(valid_utf8((w + u).skip(j)));
}

/// Dropping the first byte of a non-empty suffix of a valid UTF-8 stream
/// leaves a suffix of a valid UTF-8 stream.
proof fn lemma_stream_suffix_drop_first(w: Seq<u8>)
    requires
        utf8_stream_suffix(w),
        w.len() > 0,
    ensures
        utf8_stream_suffix(w.skip(1)),
{
    let j = choose|j: int|
        0 <= j <= w.len() && (forall|i: int| 0 <= i < j ==> is_continuation_byte(#[trigger] w[i]))
            && valid_utf8(#[trigger] w.skip(j));
    if j >= 1 {
        assert(forall|i: int|
            0 <= i < j - 1 ==> is_continuation_byte(#[trigger] w.skip(1)[i]));
        assert(w.skip(1).skip(j - 1) =~= w.skip(j));
        assert(valid_utf8(w.skip(1).skip(j - 1)));
    } else {
        assert(w.skip(0) =~= w);
        assert(valid_utf8(w));
        assert(valid_first_scalar(w));
        let len = length_of_first_scalar(w);
        assert(1 <= len <= w.len());
        assert(forall|i: int| 0 <= i < len - 1 ==> is_continuation_byte(#[trigger] w.skip(1)[i]));
        assert(w.skip(1).skip(len - 1) =~= pop_first_scalar(w));
        assert(valid_utf8(w.skip(1).skip(len - 1)));
    }
}

/// Dropping any number of leading bytes from a suffix of a valid UTF-8
/// stream leaves a suffix of a valid UTF-8 stream: the window that survives
/// an overwrite of the oldest data still has the stream-suffix shape.
pub proof fn lemma_stream_suffix_skip(w: Seq<u8>, k: int)
    requires
        utf8_stream_suffix(w),
        0 <= k <= w.len(),
    ensures
        utf8_stream_suffix(w.skip(k)),
    decreases k,
{
    if k == 0 {
        assert(w.skip(0) =~= w);
    } else {
        lemma_stream_suffix_drop_first(w);
        lemma_stream_suffix_skip(w.skip(1), k - 1);
        assert(w.skip(1).skip(k - 1) =~= w.skip(k));
    }
}

/// The trimmed window of a suffix of a valid UTF-8 stream is valid UTF-8,
/// and the text presented for the window re-encodes to exactly the trimmed
/// window: extraction never invents or distorts characters.
pub proof fn lemma_window_text_valid(w: Seq<u8>)
    requires
        utf8_stream_suffix(w),
    ensures
        valid_utf8(trim_to_boundary(w)),
        encode_utf8(window_text(w)) == trim_to_boundary(w),
    decreases w.len(),
{
    let j = choose|j: int|
        0 <= j <= w.len() && (forall|i: int| 0 <= i < j ==> is_continuation_byte(#[trigger] w[i]))
            && valid_utf8(#[trigger] w.skip(j));
    if w.len() == 0 {
        assert(valid_utf8(trim_to_boundary(w)));
    } else if j == 0 {
        assert(w.skip(0) =~= w);
        assert(valid_utf8(w));
        assert(valid_first_scalar(w));
        assert(leading_byte(w[0]));
        assert(trim_to_boundary(w) == w);
    } else {
        assert(is_continuation_byte(w[0]));
        assert(!leading_byte(w[0]));
        lemma_stream_suffix_drop_first(w);
        lemma_window_text_valid(w.skip(1));
        assert(trim_to_boundary(w) == trim_to_boundary(w.skip(1)));
    }
    decode_utf8_encode_utf8(trim_to_boundary(w));
}

/// The trimmed window is the suffix of the window that starts at the first
/// leading byte: everything dropped was a continuation-shaped byte, and the
/// trimmed window, when non-empty, starts with a leading byte.
pub proof fn lemma_trim_to_boundary_suffix(w: Seq<u8>)
    ensures
        trim_to_boundary(w).len() <= w.len(),
        trim_to_boundary(w) == w.skip(w.len() - trim_to_boundary(w).len()),
        forall|i: int|
            0 <= i < w.len() - trim_to_boundary(w).len() ==> !leading_byte(#[trigger] w[i]),
        trim_to_boundary(w).len() > 0 ==> leading_byte(w[w.len() - trim_to_boundary(w).len()]),
    decreases w.len(),
{
    if w.len() == 0 {
        assert(w.skip(0) =~= w);
    } else if leading_byte(w[0]) {
        assert(w.skip(0) =~= w);
    } else {
        lemma_trim_to_boundary_suffix(w.skip(1));
        let dropped = w.len() - trim_to_boundary(w).len();
        assert(w.skip(1).skip(dropped - 1) =~= w.skip(dropped));
        assert(forall|i: int|
            1 <= i < dropped ==> !leading_byte(#[trigger] w[i])) by {
            assert(forall|i: int|
                0 <= i < dropped - 1 ==> !leading_byte(#[trigger] w.skip(1)[i]));
            assert forall|i: int| 1 <= i < dropped implies !leading_byte(#[trigger] w[i]) by {
                assert(w[i] == w.skip(1)[i - 1]);
            }
        }
        if trim_to_boundary(w).len() > 0 {
            assert(w[dropped] == w.skip(1)[dropped - 1]);
        }
    }
}

/// When at least one complete character survives in the window — the window
/// is some truncated character's continuation bytes followed by a non-empty
/// valid UTF-8 encoding — the trimmed window is exactly that encoding and
/// the presented text is non-empty.
pub proof fn lemma_window_text_nonempty(w: Seq<u8>, j: int)
    requires
        0 <= j <= w.len(),
        forall|i: int| 0 <= i < j ==> is_continuation_byte(#[trigger] w[i]),
        valid_utf8(w.skip(j)),
        w.skip(j).len() > 0,
    ensures
        trim_to_boundary(w) == w.skip(j),
        window_text(w).len() > 0,
    decreases j,
{
    if j == 0 {
        assert(w.skip(0) =~= w);
        assert(valid_utf8(w));
        assert(valid_first_scalar(w));
        assert(leading_byte(w[0]));
        assert(trim_to_boundary(w) == w);
        assert(decode_utf8(w).len() > 0);
    } else {
        assert(is_continuation_byte(w[0]));
        assert(!leading_byte(w[0]));
        assert(forall|i: int|
            0 <= i < j - 1 ==> is_continuation_byte(#[trigger] w.skip(1)[i]));
        assert(w.skip(1).skip(j - 1) =~= w.skip(j));
        lemma_window_text_nonempty(w.skip(1), j - 1);
        assert(trim_to_boundary(w) == trim_to_boundary(w.skip(1)));
    }
}

/// Find the number of bytes to drop from the front of `window` so that the
/// remainder starts at a UTF-8 character boundary: the index of the first
/// leading byte, or the window's length when no byte is a leading byte.
pub fn boundary_scan(window: &[u8]) -> (i: usize)
    ensures
        i <= window@.len(),
        window@.skip(i as int) == trim_to_boundary(window@),
        forall|k: int| 0 <= k < i ==> !leading_byte(#[trigger] window@[k]),
        i < window@.len() ==> leading_byte(window@[i as int]),
{
    let n = window.len();
    let mut i: usize = 0;
    assert(window@.skip(0) =~= window@);
    while i < n
        invariant
            i <= n,
            n == window@.len(),
            trim_to_boundary(window@) == trim_to_boundary(window@.skip(i as int)),
            forall|k: int| 0 <= k < i ==> !leading_byte(#[trigger] window@[k]),
        decreases n - i,
    {
        let b = window[i];
        if is_utf8_leading_byte(b) {
            assert(trim_to_boundary(window@.skip(i as int)) == window@.skip(i as int));
            return i;
        }
        proof {
            assert(window@.skip(i as int).skip(1) =~= window@.skip(i + 1));
        }
        i += 1;
    }
    proof {
        assert(window@.skip(n as int) =~= Seq::<u8>::empty());
    }
    n
}

/// Relies on `core::str::from_utf8` and `str::to_owned`: bytes that are
/// valid UTF-8 decode successfully, to exactly the character sequence that
/// `decode_utf8` gives for them.
#[verifier::external_body]
fn string_from_utf8(bytes: &[u8]) -> (r: String)
    requires
        valid_utf8(bytes@),
    ensures
        r@ == decode_utf8(bytes@),
{
    core::str::from_utf8(bytes).unwrap().to_owned()
}

/// A `RingBuffer` is a ring buffer for storing UTF-8 strings for text
/// display.  It has the same capacity accounting and overwrite-on-full
/// mechanics as the generic element ring, specialized to bytes, and its
/// extraction trims the window to a character boundary so the result is
/// always valid UTF-8.
#[derive(Debug)]
pub struct RingBuffer<S> {
    ring: crate::RingBuffer<S, u8>,
}

impl<S> View for RingBuffer<S> where S: crate::BufferStorage<u8> {
    type V = Seq<u8>;

    /// The abstract contents of the ring buffer: the retained bytes in
    /// chronological order, oldest first.
    closed spec fn view(&self) -> Seq<u8> {
        self.ring@
    }
}

impl<S> RingBuffer<S> where S: crate::BufferStorage<u8> {
    /// The internal state is consistent, and the retained byte window is a
    /// suffix of a valid UTF-8 stream, as every window produced by writing
    /// whole strings is.
    pub closed spec fn wf(&self) -> bool {
        &&& self.ring.wf()
        &&& utf8_stream_suffix(self.ring@)
    }

    /// The fixed number of bytes the buffer can hold.
    pub closed spec fn spec_capacity(&self) -> nat {
        self.ring.spec_capacity()
    }

    /// Whether the buffer is in the wrapped state.
    pub closed spec fn spec_wrapped(&self) -> bool {
        self.ring.spec_wrapped()
    }

    /// The position of the next byte to be written.
    pub closed spec fn spec_end(&self) -> nat {
        self.ring.spec_end()
    }

    /// The raw slot contents of the backing storage.
    pub closed spec fn storage_view(&self) -> Seq<u8> {
        self.ring.storage_view()
    }

    /// The backing storage is fixed-length: it always holds exactly
    /// `spec_capacity()` slots, so no operation resizes it.
    pub proof fn lemma_storage_len_is_capacity(&self)
        ensures
            self.storage_view().len() == self.spec_capacity(),
    {
        self.ring.lemma_storage_len_is_capacity();
    }

    /// Construct a new text ring buffer.
    ///
    /// The storage's length fixes the capacity; every slot is zeroed and the
    /// buffer starts empty.
    pub fn new(storage: S) -> (rb: RingBuffer<S>)
        ensures
            rb.wf(),
            rb@ == Seq::<u8>::empty(),
            !rb.spec_wrapped(),
            rb.spec_end() == 0,
            rb.spec_capacity() == storage.slots().len(),
            forall|k: int| 0 <= k < rb.storage_view().len() ==> rb.storage_view()[k] == 0u8,
    {
        let ring = crate::RingBuffer::new(storage);
        proof {
            lemma_stream_suffix_empty();
        }
        RingBuffer { ring }
    }

    /// Empty out the ring buffer, zeroing every slot.
    ///
    /// The buffer returns to the unwrapped state with the write position at
    /// the start, whatever state it was in before, and the storage keeps its
    /// length.
    pub fn clear(&mut self)
        ensures
            final(self).wf(),
            final(self)@ == Seq::<u8>::empty(),
            !final(self).spec_wrapped(),
            final(self).spec_end() == 0,
            final(self).spec_capacity() == old(self).spec_capacity(),
            final(self).storage_view().len() == old(self).storage_view().len(),
            forall|k: int|
                0 <= k < final(self).storage_view().len() ==> final(self).storage_view()[k] == 0u8,
    {
        self.ring.clear();
        proof {
            lemma_stream_suffix_empty();
        }
    }

    /// Determine whether the ring buffer is empty, i.e. it contains no data.
    pub fn is_empty(&self) -> (r: bool)
        requires
            self.wf(),
        ensures
            r == (self@.len() == 0),
    {
        self.ring.is_empty()
    }

    /// Determine the number of bytes currently stored in the ring buffer.
    pub fn len(&self) -> (n: usize)
        requires
            self.wf(),
        ensures
            n == self@.len(),
    {
        self.ring.len()
    }

    /// The maximum number of bytes that a ring buffer can store.  This is
    /// not the same as the number of characters the buffer can store, since
    /// a UTF-8 character can take up to four bytes.
    pub fn capacity(&self) -> (n: usize)
        ensures
            n == self.spec_capacity(),
    {
        self.ring.capacity()
    }

    /// Calculate the amount of space in bytes remaining in the ring buffer.
    pub fn space_remaining(&self) -> (n: usize)
        requires
            self.wf(),
        ensures
            n == self.spec_capacity() - self@.len(),
    {
        self.ring.space_remaining()
    }

    /// Determine whether the ring buffer is full.
    pub fn is_full(&self) -> (r: bool)
        requires
            self.wf(),
        ensures
            r == (self@.len() == self.spec_capacity()),
    {
        self.ring.is_full()
    }

    /// Linearize the buffer in place; the abstract contents are unchanged,
    /// and rotating an already linearized (unwrapped) buffer is a no-op.
    pub fn rotate(&mut self)
        requires
            old(self).wf(),
        ensures
            final(self).wf(),
            final(self)@ == old(self)@,
            final(self).spec_capacity() == old(self).spec_capacity(),
            !final(self).spec_wrapped(),
            final(self).spec_end() == final(self)@.len(),
            final(self).storage_view().take(final(self)@.len() as int) == final(self)@,
            !old(self).spec_wrapped() ==> *final(self) == *old(self),
    {
        self.ring.rotate();
    }

    /// Write a UTF-8 string into the ring buffer, byte by byte.
    ///
    /// Once the buffer is full each further byte evicts the oldest one, so
    /// the buffer is left holding exactly the most recent `capacity` bytes
    /// of the combined stream.  The write itself always succeeds; the caller
    /// observes data loss only through the data being gone on extraction.
    pub fn write_str(&mut self, text: &str) -> (r: Result<(), ()>)
        requires
            old(self).wf(),
        ensures
            final(self).wf(),
            final(self).spec_capacity() == old(self).spec_capacity(),
            final(self)@ == crate::last_window(
                old(self)@ + encode_utf8(text@),
                old(self).spec_capacity(),
            ),
            old(self).spec_capacity() == 0 ==> *final(self) == *old(self),
            encode_utf8(text@).len() == 0 ==> *final(self) == *old(self),
            old(self).spec_capacity() > 0 && encode_utf8(text@).len() > 0 ==> final(self).spec_end()
                == (old(self).spec_end() + encode_utf8(text@).len()) % old(self).spec_capacity(),
            old(self).spec_capacity() > 0 && encode_utf8(text@).len() > 0 ==> final(self).spec_end()
                < final(self).spec_capacity(),
            old(self).spec_capacity() > 0 ==> (final(self).spec_wrapped() == (
            old(self).spec_wrapped() || (encode_utf8(text@).len() > 0 && old(self)@.len()
                + encode_utf8(text@).len() >= old(self).spec_capacity()))),
            r == Ok::<(), ()>(()),
    {
        let bytes: &[u8] = text.as_bytes();
        let result = self.ring.write(bytes);
        proof {
            let stream = old(self)@ + encode_utf8(text@);
            let cap = old(self).spec_capacity();
            encode_utf8_valid_utf8(text@);
            lemma_stream_suffix_append(old(self)@, encode_utf8(text@));
            if stream.len() > cap {
                lemma_stream_suffix_skip(stream, stream.len() - cap);
            }
        }
        result
    }

    /// Extract a string from the ring buffer.
    ///
    /// The buffer is linearized in place, then the retained byte window is
    /// trimmed forward to the first character boundary and decoded.  The
    /// result is always valid UTF-8; up to three leading bytes of a
    /// character truncated by the wrap boundary are silently dropped.  The
    /// abstract contents are unchanged, so calling `extract` repeatedly
    /// without intervening writes returns identical results.
    pub fn extract(&mut self) -> (r: String)
        requires
            old(self).wf(),
        ensures
            final(self).wf(),
            final(self)@ == old(self)@,
            final(self).spec_capacity() == old(self).spec_capacity(),
            r@ == window_text(old(self)@),
            !final(self).spec_wrapped(),
            !old(self).spec_wrapped() ==> *final(self) == *old(self),
    {
        let window: Vec<u8> = self.ring.extract();
        let start = boundary_scan(window.as_slice());
        let n = window.len();
        let tail: &[u8] = vstd::slice::slice_subrange(window.as_slice(), start, n);
        proof {
            assert(tail@ =~= window@.skip(start as int));
            lemma_window_text_valid(old(self)@);
        }
        string_from_utf8(tail)
    }

    /// Whether the buffer is currently in the wrapped state.
    pub fn is_wrapped(&self) -> (r: bool)
        ensures
            r == self.spec_wrapped(),
    {
        self.ring.is_wrapped()
    }

    /// The index of the next slot to be written.
    pub fn end_index(&self) -> (n: usize)
        ensures
            n == self.spec_end(),
    {
        self.ring.end_index()
    }

    /// A copy of the raw slot contents of the backing storage.
    pub fn storage_snapshot(&self) -> (r: Vec<u8>)
        ensures
            r@ == self.storage_view(),
    {
        self.ring.storage_snapshot()
    }
}

} // verus!
