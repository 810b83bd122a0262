use vstd::prelude::*;
use vstd::string::StringSliceAdditionalSpecFns;
use vstd::utf8::encode_utf8;

use crate::buffer::{
    RingBuffer, concat_all, lemma_concat_all_append, lemma_ring_push_all_append, ring_push,
    ring_push_all,
};
use crate::text::lemma_encode_utf8_concat;

verus! {

/// Log level used by `Logger` for filtering, from most to least important.
#[derive(Copy, Clone, Eq, PartialEq, Structural, Ord, PartialOrd, Debug)]
pub enum Level {
    /// Something is wrong and likely requires immediate attention.
    Error,
    /// Something unexpected happened, but execution may continue.
    Warn,
    /// High-level informational messages (boot progress, state transitions).
    Info,
    /// Debug-level messages (may be verbose).
    Debug,
    /// Extremely verbose tracing.
    Trace,
}

/// Position of a level in the order `Error < Warn < Info < Debug < Trace`.
pub open spec fn level_rank(l: Level) -> nat {
    match l {
        Level::Error => 0,
        Level::Warn => 1,
        Level::Info => 2,
        Level::Debug => 3,
        Level::Trace => 4,
    }
}

/// The name under which a level is printed.
pub open spec fn level_name(l: Level) -> Seq<char> {
    match l {
        Level::Error => "Error"@,
        Level::Warn => "Warn"@,
        Level::Info => "Info"@,
        Level::Debug => "Debug"@,
        Level::Trace => "Trace"@,
    }
}

/// The fragments a logger writes for `message` at `level`, in order: `[`, the level's
/// name, `] `, the message and a newline.
pub open spec fn log_pieces(level: Level, message: Seq<char>) -> Seq<Seq<char>> {
    seq!["["@, level_name(level), "] "@, message, "\n"@]
}

/// The line a logger emits for `message` at `level`: `[Level] message` and a newline.
pub open spec fn log_line_text(level: Level, message: Seq<char>) -> Seq<char> {
    concat_all(log_pieces(level, message))
}

/// `states` is a run of a sink through writes of `pieces`, one after another: each write
/// takes the sink from one state to the next as the sink's own contract allows.
pub open spec fn write_run<S: LogSink + ?Sized>(states: Seq<&S>, pieces: Seq<Seq<char>>) -> bool {
    &&& states.len() == pieces.len() + 1
    &&& forall|i: int|
        0 <= i < pieces.len() ==> #[trigger] states[i].accepts_write(
            pieces[i],
            states[i + 1].held(),
        )
}

/// A run of writes that takes the sink from `before` to `after` and whose fragments,
/// concatenated, are `text`.
pub open spec fn wrote<S: LogSink + ?Sized>(
    states: Seq<&S>,
    pieces: Seq<Seq<char>>,
    before: &S,
    after: &S,
    text: Seq<char>,
) -> bool {
    &&& write_run(states, pieces)
    &&& states[0] == before
    &&& states.last() == after
    &&& concat_all(pieces) == text
}

/// The empty run: no write, the sink unchanged, no text.
pub proof fn lemma_wrote_nothing<S: LogSink + ?Sized>(sink: &S)
    ensures
        wrote(seq![sink], Seq::<Seq<char>>::empty(), sink, sink, Seq::<char>::empty()),
{
}

/// A single write of `text` from `before` to `after`, as the sink's contract allows it.
pub proof fn lemma_wrote_one<S: LogSink + ?Sized>(before: &S, after: &S, text: Seq<char>)
    requires
        before.accepts_write(text, after.held()),
    ensures
        wrote(seq![before, after], seq![text], before, after, text),
{
    let pieces = seq![text];
    assert(pieces.drop_last() =~= Seq::<Seq<char>>::empty());
    assert(concat_all(pieces.drop_last()) =~= Seq::<char>::empty());
    assert(Seq::<char>::empty() + text =~= text);
}

/// Two runs, one after the other, make one run writing both texts.
pub proof fn lemma_wrote_append<S: LogSink + ?Sized>(
    s1: Seq<&S>,
    p1: Seq<Seq<char>>,
    s2: Seq<&S>,
    p2: Seq<Seq<char>>,
    a: &S,
    b: &S,
    c: &S,
    t1: Seq<char>,
    t2: Seq<char>,
)
    requires
        wrote(s1, p1, a, b, t1),
        wrote(s2, p2, b, c, t2),
    ensures
        wrote(s1 + s2.drop_first(), p1 + p2, a, c, t1 + t2),
{
    let s = s1 + s2.drop_first();
    let p = p1 + p2;
    assert forall|i: int| 0 <= i < p.len() implies #[trigger] s[i].accepts_write(
        p[i],
        s[i + 1].held(),
    ) by {
        if i < p1.len() {
            assert(s1[i].accepts_write(p1[i], s1[i + 1].held()));
        } else {
            let j = i - p1.len();
            assert(s2[j].accepts_write(p2[j], s2[j + 1].held()));
        }
    }
    lemma_concat_all_append(p1, p2);
}

impl Level {
    /// Position in the order `Error < Warn < Info < Debug < Trace`.
    pub fn rank(self) -> (r: u8)
        ensures
            r == level_rank(self),
    {
        match self {
            Level::Error => 0,
            Level::Warn => 1,
            Level::Info => 2,
            Level::Debug => 3,
            Level::Trace => 4,
        }
    }

    /// The level's printed name, such as `Info`.
    pub fn name(self) -> (r: &'static str)
        ensures
            r@ == level_name(self),
    {
        match self {
            Level::Error => "Error",
            Level::Warn => "Warn",
            Level::Info => "Info",
            Level::Debug => "Debug",
            Level::Trace => "Trace",
        }
    }
}

/// A minimal sink for kernel/OS logging: it decides where text goes.
///
/// An implementation may expose what it holds as bytes (`held`) and say, through
/// `accepts_write`, what it may hold after writing a given text; `write_str` promises that.
/// By default a sink exposes nothing and promises nothing.
pub trait LogSink {
    /// The bytes this sink exposes of its state; none by default.
    open spec fn held(&self) -> Seq<u8> {
        Seq::empty()
    }

    /// `true` when writing `text` from this state may leave the sink holding `after`; any
    /// outcome by default.
    open spec fn accepts_write(&self, text: Seq<char>, after: Seq<u8>) -> bool {
        true
    }

    /// Writes a string fragment to the output device.
    fn write_str(&mut self, s: &str)
        ensures
            old(self).accepts_write(s@, final(self).held()),
    ;

    /// Flushes buffered output if applicable; does nothing by default.
    fn flush(&mut self)
        default_ensures
            &*final(self) == &*old(self),
    {
    }
}

/// A fixed-capacity in-memory log sink that keeps the most recent `N` bytes.
pub struct RingLog<const N: usize> {
    buf: RingBuffer<N>,
}

impl<const N: usize> View for RingLog<N> {
    type V = Seq<u8>;

    /// The stored bytes, oldest first.
    closed spec fn view(&self) -> Seq<u8> {
        self.buf@
    }
}

impl<const N: usize> RingLog<N> {
    #[verifier::type_invariant]
    closed spec fn inv(self) -> bool {
        self.buf@.len() <= N
    }

    /// Index in the backing storage of the oldest stored byte.
    pub closed spec fn start(&self) -> nat {
        self.buf.start()
    }

    /// Creates an empty ring log.
    pub fn new() -> (r: Self)
        ensures
            r@ == Seq::<u8>::empty(),
            r.start() == 0,
    {
        RingLog { buf: RingBuffer::new() }
    }

    /// Clears the stored bytes.
    pub fn clear(&mut self)
        ensures
            final(self)@ == Seq::<u8>::empty(),
            final(self).start() == 0,
    {
        self.buf.clear();
    }

    /// The stored bytes as two slices in FIFO order (see `RingBuffer::as_slices`).
    pub fn as_slices(&self) -> (r: (&[u8], &[u8]))
        ensures
            self@.len() <= N,
            N > 0 ==> self.start() < N,
            N == 0 ==> self.start() == 0,
            r.0@ + r.1@ == self@,
            r.0@.len() == (if self@.len() <= N - self.start() {
                self@.len() as int
            } else {
                N - self.start()
            }),
    {
        self.buf.as_slices()
    }

    /// Pushes a single byte, overwriting the oldest one when full.
    pub fn push_byte(&mut self, b: u8)
        ensures
            final(self)@ == ring_push(old(self)@, b, N as nat),
            final(self)@.len() <= N,
            final(self).start() == (if N > 0 && old(self)@.len() == N {
                if old(self).start() + 1 == N { 0 } else { old(self).start() + 1 }
            } else {
                old(self).start()
            }),
    {
        self.buf.push(b);
    }
}

impl<const N: usize> Default for RingLog<N> {
    /// An empty ring log, as `RingLog::new`.
    fn default() -> (r: Self)
        ensures
            r@ == Seq::<u8>::empty(),
            r.start() == 0,
    {
        Self::new()
    }
}

impl<const N: usize> LogSink for RingLog<N> {
    /// The stored bytes, oldest first.
    open spec fn held(&self) -> Seq<u8> {
        self@
    }

    /// Writing `text` appends its UTF-8 bytes, keeping the most recent `N`.
    open spec fn accepts_write(&self, text: Seq<char>, after: Seq<u8>) -> bool {
        after == ring_push_all(self@, encode_utf8(text), N as nat)
    }

    /// Nothing is buffered: flushing leaves the log unchanged.
    fn flush(&mut self)
        ensures
            *final(self) == *old(self),
    {
    }

    /// Appends the UTF-8 bytes of `s`, keeping only the most recent `N` bytes.
    fn write_str(&mut self, s: &str)
        ensures
            final(self)@ == ring_push_all(old(self)@, s.spec_bytes(), N as nat),
            final(self)@.len() <= N,
    {
        proof {
            use_type_invariant(&*self);
        }
        let bytes = s.as_bytes();
        let mut i: usize = 0;
        while i < bytes.len()
            invariant
                i <= bytes@.len(),
                bytes@ == s.spec_bytes(),
                self@ == ring_push_all(old(self)@, bytes@.take(i as int), N as nat),
                self@.len() <= N,
            decreases bytes@.len() - i,
        {
            self.buf.push(bytes[i]);
            proof {
                let t = bytes@.take(i + 1);
                assert(t.drop_last() =~= bytes@.take(i as int));
                assert(t.last() == bytes@[i as int]);
            }
            i = i + 1;
        }
        assert(bytes@.take(bytes@.len() as int) =~= bytes@);
    }
}

/// A run of writes on a `RingLog` pushes the UTF-8 bytes of all the written text, in
/// order, keeping the most recent `N`.
pub proof fn lemma_ring_log_run<const N: usize>(states: Seq<&RingLog<N>>, pieces: Seq<Seq<char>>)
    requires
        write_run(states, pieces),
    ensures
        states.last()@ == ring_push_all(states[0]@, encode_utf8(concat_all(pieces)), N as nat),
    decreases pieces.len(),
{
    if pieces.len() == 0 {
        assert(encode_utf8(concat_all(pieces)) =~= Seq::<u8>::empty());
    } else {
        let n = pieces.len() - 1;
        let prefix = pieces.drop_last();
        let p = pieces.last();
        let earlier = states.drop_last();
        assert forall|i: int| 0 <= i < prefix.len() implies #[trigger] earlier[i].accepts_write(
            prefix[i],
            earlier[i + 1].held(),
        ) by {
            assert(states[i].accepts_write(pieces[i], states[i + 1].held()));
        }
        lemma_ring_log_run(earlier, prefix);
        assert(states[n].accepts_write(pieces[n], states[n + 1].held()));
        lemma_encode_utf8_concat(concat_all(prefix), p);
        lemma_ring_push_all_append(
            states[0]@,
            encode_utf8(concat_all(prefix)),
            encode_utf8(p),
            N as nat,
        );
    }
}

/// A tiny logger with level filtering: it emits `[Level] message` lines whose level is at
/// most its configured level.
pub struct Logger<'a, S: LogSink> {
    sink: &'a mut S,
    level: Level,
}

impl<'a, S: LogSink> Logger<'a, S> {
    /// Creates a logger writing to `sink` and filtering at `level`.
    pub fn new(sink: &'a mut S, level: Level) -> (r: Self)
        ensures
            r.level_spec() == level,
            r.sink_spec() == *old(sink),
    {
        Logger { sink, level }
    }

    /// The sink's current value (as seen by contracts).
    pub closed spec fn sink_spec(&self) -> S {
        *self.sink
    }

    /// The configured level (as seen by contracts).
    pub closed spec fn level_spec(&self) -> Level {
        self.level
    }

    /// Returns the configured level.
    pub fn level(&self) -> (r: Level)
        ensures
            r == self.level_spec(),
    {
        self.level
    }

    /// Returns the underlying sink.
    pub fn sink_mut(&mut self) -> (r: &mut S)
        ensures
            *r == old(self).sink_spec(),
            final(self).sink_spec() == *final(r),
            final(self).level_spec() == old(self).level_spec(),
    {
        self.sink
    }

    /// `true` when messages of `level` are emitted: `level` is at most the configured level.
    pub fn enabled(&self, level: Level) -> (r: bool)
        ensures
            r == (level_rank(level) <= level_rank(self.level_spec())),
    {
        level.rank() <= self.level.rank()
    }

    /// Writes the line `[Level] message` to the sink when `level` is enabled, as the
    /// fragments of `log_pieces`, one write each.
    pub fn log(&mut self, level: Level, message: &str)
        ensures
            final(self).level_spec() == old(self).level_spec(),
            level_rank(level) > level_rank(old(self).level_spec()) ==> final(self).sink_spec()
                == old(self).sink_spec(),
            level_rank(level) <= level_rank(old(self).level_spec()) ==> exists|states: Seq<&S>|
                {
                    &&& write_run(states, log_pieces(level, message@))
                    &&& *states[0] == old(self).sink_spec()
                    &&& *states[5] == final(self).sink_spec()
                },
    {
        if !self.enabled(level) {
            return;
        }
        let ghost s0: &S = &*self.sink;
        self.sink.write_str("[");
        let ghost s1: &S = &*self.sink;
        self.sink.write_str(level.name());
        let ghost s2: &S = &*self.sink;
        self.sink.write_str("] ");
        let ghost s3: &S = &*self.sink;
        self.sink.write_str(message);
        let ghost s4: &S = &*self.sink;
        self.sink.write_str("\n");
        let ghost s5: &S = &*self.sink;
        proof {
            let states = seq![s0, s1, s2, s3, s4, s5];
            let pieces = log_pieces(level, message@);
            assert(states[0].accepts_write(pieces[0], states[1].held()));
            assert(states[1].accepts_write(pieces[1], states[2].held()));
            assert(states[2].accepts_write(pieces[2], states[3].held()));
            assert(states[3].accepts_write(pieces[3], states[4].held()));
            assert(states[4].accepts_write(pieces[4], states[5].held()));
            assert(write_run(states, pieces));
        }
    }
}

} // verus!
