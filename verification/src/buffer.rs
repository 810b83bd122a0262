use vstd::prelude::*;
use vstd::slice::slice_subrange;
use vstd::utf8::*;

use crate::text::{lemma_encode_utf8_concat, lemma_encode_utf8_empty, str_from_utf8};

verus! {

/// Position in the backing array of the `i`-th oldest byte of a ring whose oldest byte sits
/// at `start`, for a ring of capacity `cap`.
spec fn ring_slot(start: int, i: int, cap: int) -> int {
    if start + i < cap {
        start + i
    } else {
        start + i - cap
    }
}

/// The contents after pushing `b` onto a ring holding `s` with capacity `cap`: the byte is
/// appended, and when the ring is full the oldest byte is dropped. A ring of capacity 0
/// keeps nothing.
pub open spec fn ring_push(s: Seq<u8>, b: u8, cap: nat) -> Seq<u8> {
    if cap == 0 {
        s
    } else if s.len() < cap {
        s.push(b)
    } else {
        s.push(b).drop_first()
    }
}

/// The contents after pushing every byte of `bytes`, in order.
pub open spec fn ring_push_all(s: Seq<u8>, bytes: Seq<u8>, cap: nat) -> Seq<u8>
    decreases bytes.len(),
{
    if bytes.len() == 0 {
        s
    } else {
        ring_push(ring_push_all(s, bytes.drop_last(), cap), bytes.last(), cap)
    }
}

/// The last `n` elements of `s` (all of `s` when it is shorter).
pub open spec fn last_n(s: Seq<u8>, n: nat) -> Seq<u8> {
    if s.len() <= n {
        s
    } else {
        s.subrange(s.len() - n, s.len() as int)
    }
}

/// A ring that has never held more than its capacity keeps, after any sequence of pushes,
/// exactly the most recent `cap` bytes of everything it held and received, in order.
pub proof fn lemma_ring_keeps_most_recent(s: Seq<u8>, bytes: Seq<u8>, cap: nat)
    requires
        s.len() <= cap,
    ensures
        ring_push_all(s, bytes, cap) == last_n(s + bytes, cap),
    decreases bytes.len(),
{
    if bytes.len() == 0 {
        assert(s + bytes =~= s);
    } else {
        let prefix = bytes.drop_last();
        let b = bytes.last();
        lemma_ring_keeps_most_recent(s, prefix, cap);
        let u = s + prefix;
        let t = last_n(u, cap);
        assert(s + bytes =~= u.push(b));
        if cap == 0 {
            assert(last_n(u.push(b), cap) =~= Seq::<u8>::empty());
            assert(t =~= Seq::<u8>::empty());
        } else if t.len() < cap {
            assert(t == u);
        } else {
            assert(t.push(b).drop_first() =~= last_n(u.push(b), cap));
        }
    }
}

/// While everything fits, a ring loses nothing: pushing `bytes` onto `s` yields `s` followed
/// by `bytes`, in order.
pub proof fn lemma_ring_fifo_within_capacity(s: Seq<u8>, bytes: Seq<u8>, cap: nat)
    requires
        s.len() + bytes.len() <= cap,
    ensures
        ring_push_all(s, bytes, cap) == s + bytes,
{
    lemma_ring_keeps_most_recent(s, bytes, cap);
}

/// First in, first out: after pushing `xs` (at most `cap` bytes) onto an empty ring, the
/// `i`-th pop returns `xs[i]` (after `i` pops the ring holds `xs` without its first `i`
/// bytes), and `xs.len()` pops empty it.
pub proof fn lemma_ring_fifo_pops(xs: Seq<u8>, cap: nat)
    requires
        xs.len() <= cap,
    ensures
        forall|i: int|
            0 <= i < xs.len() ==> #[trigger] ring_push_all(Seq::<u8>::empty(), xs, cap).skip(i)[0]
                == xs[i],
        ring_push_all(Seq::<u8>::empty(), xs, cap).skip(xs.len() as int).len() == 0,
{
    lemma_ring_fifo_within_capacity(Seq::<u8>::empty(), xs, cap);
    assert(Seq::<u8>::empty() + xs =~= xs);
}

/// Pushing `a` and then `b` is pushing `a` followed by `b`.
pub proof fn lemma_ring_push_all_append(s: Seq<u8>, a: Seq<u8>, b: Seq<u8>, cap: nat)
    ensures
        ring_push_all(ring_push_all(s, a, cap), b, cap) == ring_push_all(s, a + b, cap),
    decreases b.len(),
{
    if b.len() == 0 {
        assert(a + b =~= a);
    } else {
        lemma_ring_push_all_append(s, a, b.drop_last(), cap);
        assert((a + b).drop_last() =~= a + b.drop_last());
        assert((a + b).last() == b.last());
    }
}

/// A ring of capacity 0 keeps nothing, whatever is pushed onto it.
pub proof fn lemma_ring_zero_capacity_keeps_nothing(bytes: Seq<u8>)
    ensures
        ring_push_all(Seq::<u8>::empty(), bytes, 0) == Seq::<u8>::empty(),
{
    lemma_ring_keeps_most_recent(Seq::<u8>::empty(), bytes, 0);
    assert(last_n(Seq::<u8>::empty() + bytes, 0) =~= Seq::<u8>::empty());
}

/// Fixed-capacity FIFO of bytes with overwrite-on-full semantics.
pub struct RingBuffer<const N: usize> {
    buf: [u8; N],
    head: usize,
    len: usize,
}

impl<const N: usize> View for RingBuffer<N> {
    type V = Seq<u8>;

    /// The stored bytes, oldest first.
    closed spec fn view(&self) -> Seq<u8> {
        Seq::new(self.len as nat, |i: int| self.buf@[ring_slot(self.head as int, i, N as int)])
    }
}

impl<const N: usize> RingBuffer<N> {
    #[verifier::type_invariant]
    closed spec fn inv(self) -> bool {
        &&& self.len <= N
        &&& (N > 0 ==> self.head < N)
        &&& (N == 0 ==> self.head == 0)
    }

    /// Index in the backing storage of the oldest byte.
    pub closed spec fn start(&self) -> nat {
        self.head as nat
    }

    /// Creates an empty ring.
    pub fn new() -> (r: Self)
        ensures
            r@ == Seq::<u8>::empty(),
            r.start() == 0,
    {
        RingBuffer { buf: [0u8; N], head: 0, len: 0 }
    }

    /// The fixed capacity `N`.
    pub fn capacity(&self) -> (r: usize)
        ensures
            r == N,
    {
        N
    }

    /// Number of stored bytes.
    pub fn len(&self) -> (r: usize)
        ensures
            r == self@.len(),
            r <= N,
            N > 0 ==> self.start() < N,
    {
        proof {
            use_type_invariant(self);
        }
        self.len
    }

    /// `true` when no byte is stored.
    pub fn is_empty(&self) -> (r: bool)
        ensures
            r == (self@.len() == 0),
    {
        self.len == 0
    }

    /// `true` when the ring holds `N` bytes.
    pub fn is_full(&self) -> (r: bool)
        ensures
            r == (self@.len() == N),
    {
        self.len == N
    }

    /// Appends `byte`; when the ring is full the oldest byte is overwritten.
    /// With `N == 0` nothing is stored.
    pub fn push(&mut self, byte: u8)
        ensures
            final(self)@ == ring_push(old(self)@, byte, N as nat),
            final(self)@.len() <= N,
            N > 0 ==> final(self).start() < N,
            final(self).start() == (if N > 0 && old(self)@.len() == N {
                if old(self).start() + 1 == N { 0 } else { old(self).start() + 1 }
            } else {
                old(self).start()
            }),
        no_unwind
    {
        proof {
            use_type_invariant(&*self);
        }
        if N == 0 {
            return;
        }
        let idx = if self.head < N - self.len {
            self.head + self.len
        } else {
            self.head - (N - self.len)
        };
        let ghost old_view = self@;
        self.buf[idx] = byte;
        if self.len < N {
            self.len = self.len + 1;
            assert(self@ =~= old_view.push(byte));
        } else {
            self.head = if self.head + 1 == N { 0 } else { self.head + 1 };
            assert(self@ =~= old_view.push(byte).drop_first());
        }
    }

    /// Removes and returns the oldest byte, or `None` when the ring is empty.
    pub fn pop(&mut self) -> (r: Option<u8>)
        ensures
            final(self)@.len() <= N,
            N > 0 ==> final(self).start() < N,
            old(self)@.len() == 0 ==> r == None::<u8> && final(self)@ == old(self)@
                && final(self).start() == old(self).start(),
            old(self)@.len() > 0 ==> r == Some(old(self)@[0]) && final(self)@
                == old(self)@.drop_first() && final(self).start() == (if old(self).start() + 1
                == N {
                0
            } else {
                old(self).start() + 1
            }),
    {
        proof {
            use_type_invariant(&*self);
        }
        if self.len == 0 || N == 0 {
            return None;
        }
        let ghost old_view = self@;
        let b = self.buf[self.head];
        self.head = if self.head + 1 == N { 0 } else { self.head + 1 };
        self.len = self.len - 1;
        assert(self@ =~= old_view.drop_first());
        Some(b)
    }

    /// Removes every stored byte.
    pub fn clear(&mut self)
        ensures
            final(self)@ == Seq::<u8>::empty(),
            final(self).start() == 0,
        no_unwind
    {
        proof {
            use_type_invariant(&*self);
        }
        self.len = 0;
        self.head = 0;
    }

    /// The stored bytes as two slices in FIFO order: the first runs from the oldest byte to
    /// the end of the backing storage or of the contents, the second holds the wrapped rest.
    pub fn as_slices(&self) -> (r: (&[u8], &[u8]))
        ensures
            self@.len() <= N,
            N > 0 ==> self.start() < N,
            N == 0 ==> self.start() == 0,
            r.0@ + r.1@ == self@,
            r.0@.len() == (if self@.len() <= N - self.start() {
                self@.len() as int
            } else {
                N - self.start()
            }),
    {
        proof {
            use_type_invariant(self);
        }
        let all: &[u8] = self.buf.as_slice();
        if self.len == 0 || N == 0 {
            let e0: &[u8] = slice_subrange(all, 0, 0);
            let e1: &[u8] = slice_subrange(all, 0, 0);
            assert(e0@ + e1@ =~= self@);
            return (e0, e1);
        }
        if self.len <= N - self.head {
            let a = slice_subrange(all, self.head, self.head + self.len);
            let b = slice_subrange(all, 0, 0);
            assert(a@ + b@ =~= self@);
            (a, b)
        } else {
            let end = self.len - (N - self.head);
            let a = slice_subrange(all, self.head, N);
            let b = slice_subrange(all, 0, end);
            assert(a@ + b@ =~= self@);
            (a, b)
        }
    }
}

/// The text after attempting to append `piece` to `text` within `cap` bytes: appended when
/// the UTF-8 encodings fit together, otherwise unchanged.
pub open spec fn fixed_push(text: Seq<char>, piece: Seq<char>, cap: nat) -> Seq<char> {
    if encode_utf8(text).len() + encode_utf8(piece).len() <= cap {
        text + piece
    } else {
        text
    }
}

/// The text after attempting each of `pieces` in order.
pub open spec fn fixed_push_all(text: Seq<char>, pieces: Seq<Seq<char>>, cap: nat) -> Seq<char>
    decreases pieces.len(),
{
    if pieces.len() == 0 {
        text
    } else {
        fixed_push(fixed_push_all(text, pieces.drop_last(), cap), pieces.last(), cap)
    }
}

/// The pieces, in order, that were appended when attempting each of `pieces` on `text`.
pub open spec fn fixed_accepted(text: Seq<char>, pieces: Seq<Seq<char>>, cap: nat) -> Seq<
    Seq<char>,
>
    decreases pieces.len(),
{
    if pieces.len() == 0 {
        Seq::empty()
    } else {
        let before = fixed_push_all(text, pieces.drop_last(), cap);
        let earlier = fixed_accepted(text, pieces.drop_last(), cap);
        if encode_utf8(before).len() + encode_utf8(pieces.last()).len() <= cap {
            earlier.push(pieces.last())
        } else {
            earlier
        }
    }
}

/// The concatenation of `pieces`.
pub open spec fn concat_all(pieces: Seq<Seq<char>>) -> Seq<char>
    decreases pieces.len(),
{
    if pieces.len() == 0 {
        Seq::empty()
    } else {
        concat_all(pieces.drop_last()) + pieces.last()
    }
}

/// Concatenating two lists of pieces concatenates their texts.
pub proof fn lemma_concat_all_append(p1: Seq<Seq<char>>, p2: Seq<Seq<char>>)
    ensures
        concat_all(p1 + p2) == concat_all(p1) + concat_all(p2),
    decreases p2.len(),
{
    if p2.len() == 0 {
        assert(p1 + p2 =~= p1);
        assert(concat_all(p1) + concat_all(p2) =~= concat_all(p1));
    } else {
        lemma_concat_all_append(p1, p2.drop_last());
        assert((p1 + p2).drop_last() =~= p1 + p2.drop_last());
        assert((p1 + p2).last() == p2.last());
        assert(concat_all(p1 + p2) =~= concat_all(p1) + concat_all(p2));
    }
}

/// Whatever appends are attempted on a `FixedStr` text that fits its capacity, the text
/// still fits, and it is the starting text followed by exactly the pieces that were
/// accepted, in order.
pub proof fn lemma_fixed_str_history(text: Seq<char>, pieces: Seq<Seq<char>>, cap: nat)
    requires
        encode_utf8(text).len() <= cap,
    ensures
        encode_utf8(fixed_push_all(text, pieces, cap)).len() <= cap,
        fixed_push_all(text, pieces, cap) == text + concat_all(fixed_accepted(text, pieces, cap)),
    decreases pieces.len(),
{
    if pieces.len() == 0 {
        assert(text + concat_all(Seq::<Seq<char>>::empty()) =~= text);
    } else {
        let rest = pieces.drop_last();
        let p = pieces.last();
        lemma_fixed_str_history(text, rest, cap);
        let before = fixed_push_all(text, rest, cap);
        let earlier = fixed_accepted(text, rest, cap);
        if encode_utf8(before).len() + encode_utf8(p).len() <= cap {
            lemma_encode_utf8_concat(before, p);
            assert(earlier.push(p).drop_last() =~= earlier);
            assert(text + concat_all(earlier.push(p)) =~= text + concat_all(earlier) + p);
        }
    }
}

/// Fixed-capacity UTF-8 string builder holding at most `N` bytes.
pub struct FixedStr<const N: usize> {
    buf: [u8; N],
    len: usize,
    text: Ghost<Seq<char>>,
}

/// Returned when appending would exceed a `FixedStr`'s capacity.
#[derive(Copy, Clone, Eq, PartialEq, Structural, Debug)]
pub struct FixedStrError;

impl<const N: usize> View for FixedStr<N> {
    type V = Seq<char>;

    /// The characters stored so far.
    closed spec fn view(&self) -> Seq<char> {
        self.text@
    }
}

impl<const N: usize> FixedStr<N> {
    #[verifier::type_invariant]
    closed spec fn inv(self) -> bool {
        &&& self.len <= N
        &&& self.buf@.subrange(0, self.len as int) == encode_utf8(self.text@)
    }

    /// Creates an empty string.
    pub fn new() -> (r: Self)
        ensures
            r@ == Seq::<char>::empty(),
    {
        let buf = [0u8; N];
        proof {
            assert(buf@.subrange(0, 0) =~= encode_utf8(Seq::<char>::empty()));
        }
        FixedStr { buf, len: 0, text: Ghost(Seq::<char>::empty()) }
    }

    /// The capacity `N`, in bytes.
    pub fn capacity(&self) -> (r: usize)
        ensures
            r == N,
    {
        N
    }

    /// Length of the stored text in UTF-8 bytes.
    pub fn len(&self) -> (r: usize)
        ensures
            r == encode_utf8(self@).len(),
            r <= N,
    {
        proof {
            use_type_invariant(self);
        }
        self.len
    }

    /// `true` when no text is stored.
    pub fn is_empty(&self) -> (r: bool)
        ensures
            r == (self@.len() == 0),
    {
        proof {
            use_type_invariant(self);
            lemma_encode_utf8_empty(self@);
        }
        self.len == 0
    }

    /// Removes all text.
    pub fn clear(&mut self)
        ensures
            final(self)@ == Seq::<char>::empty(),
    {
        proof {
            use_type_invariant(&*self);
        }
        let buf = self.buf;
        proof {
            assert(buf@.subrange(0, 0) =~= encode_utf8(Seq::<char>::empty()));
        }
        *self = FixedStr { buf, len: 0, text: Ghost(Seq::<char>::empty()) };
    }

    /// The stored text.
    pub fn as_str(&self) -> (r: &str)
        ensures
            r@ == self@,
    {
        proof {
            use_type_invariant(self);
            encode_utf8_valid_utf8(self@);
            encode_utf8_decode_utf8(self@);
        }
        let bytes = slice_subrange(self.buf.as_slice(), 0, self.len);
        match str_from_utf8(bytes) {
            Some(s) => s,
            None => "",
        }
    }

    /// Appends `s` when its UTF-8 bytes fit in the remaining capacity; otherwise leaves the
    /// text unchanged and returns `Err(FixedStrError)`.
    pub fn try_push_str(&mut self, s: &str) -> (r: Result<(), FixedStrError>)
        ensures
            r is Ok <==> encode_utf8(old(self)@).len() + encode_utf8(s@).len() <= N,
            r is Ok ==> final(self)@ == old(self)@ + s@,
            r is Err ==> final(self)@ == old(self)@,
            final(self)@ == fixed_push(old(self)@, s@, N as nat),
            encode_utf8(final(self)@).len() <= N,
    {
        proof {
            use_type_invariant(&*self);
        }
        let bytes = s.as_bytes();
        if bytes.len() > N - self.len {
            return Err(FixedStrError);
        }
        let start = self.len;
        let mut buf = self.buf;
        let mut i: usize = 0;
        while i < bytes.len()
            invariant
                start + bytes@.len() <= N,
                i <= bytes@.len(),
                buf@.len() == N,
                buf@.subrange(0, start as int) == self.buf@.subrange(0, start as int),
                forall|j: int| 0 <= j < i ==> buf@[start + j] == bytes@[j],
            decreases bytes@.len() - i,
        {
            buf[start + i] = bytes[i];
            proof {
                assert(buf@.subrange(0, start as int) =~= self.buf@.subrange(0, start as int));
            }
            i = i + 1;
        }
        let ghost new_text = self@ + s@;
        proof {
            lemma_encode_utf8_concat(self@, s@);
            assert(buf@.subrange(0, (start + bytes@.len()) as int) =~= buf@.subrange(
                0,
                start as int,
            ) + bytes@);
        }
        *self = FixedStr { buf, len: start + bytes.len(), text: Ghost(new_text) };
        Ok(())
    }
}

impl<const N: usize> Default for RingBuffer<N> {
    /// An empty ring, as `RingBuffer::new`.
    fn default() -> (r: Self)
        ensures
            r@ == Seq::<u8>::empty(),
            r.start() == 0,
    {
        Self::new()
    }
}

impl<const N: usize> Default for FixedStr<N> {
    /// An empty string, as `FixedStr::new`.
    fn default() -> (r: Self)
        ensures
            r@ == Seq::<char>::empty(),
    {
        Self::new()
    }
}

/// The error type of `core::fmt`, carried through opaque.
#[verifier::external_type_specification]
#[verifier::external_body]
pub struct ExFmtError(core::fmt::Error);

/// `Default::default` for `core::fmt::Error`, the unit value reporting a formatting failure.
/// Nothing is claimed of the value.
pub assume_specification[ <core::fmt::Error as Default>::default ]() -> core::fmt::Error;

impl<const N: usize> core::fmt::Write for FixedStr<N> {
    /// Appends `s` as `try_push_str` does; a string that does not fit is reported as
    /// `core::fmt::Error`.
    fn write_str(&mut self, s: &str) -> (r: core::fmt::Result)
        ensures
            r is Ok <==> encode_utf8(old(self)@).len() + encode_utf8(s@).len() <= N,
            r is Ok ==> final(self)@ == old(self)@ + s@,
            r is Err ==> final(self)@ == old(self)@,
            final(self)@ == fixed_push(old(self)@, s@, N as nat),
            encode_utf8(final(self)@).len() <= N,
    {
        match self.try_push_str(s) {
            Ok(()) => Ok(()),
            Err(_) => Err(core::fmt::Error::default()),
        }
    }
}

} // verus!
