use vstd::prelude::*;
use vstd::slice::slice_subrange;

use vstd::utf8::encode_utf8_valid_utf8;

use crate::log::{LogSink, lemma_wrote_append, lemma_wrote_nothing, lemma_wrote_one, wrote};
use crate::text::{ascii_text, is_ascii_bytes, lemma_ascii_encoding, str_from_utf8, string_from_ascii};

verus! {

/// ASCII code of the lower-case hexadecimal digit for `d` (`0..16`).
pub open spec fn hex_digit(d: nat) -> u8 {
    if d < 10 {
        (48 + d) as u8
    } else {
        (87 + d) as u8
    }
}

/// ASCII code of the decimal digit for `d` (`0..10`).
pub open spec fn dec_digit(d: nat) -> u8 {
    (48 + d) as u8
}

/// Lower-case hexadecimal rendering of `n`, without leading zeros (`{:x}`).
pub open spec fn hex_digits(n: nat) -> Seq<u8>
    decreases n,
{
    if n < 16 {
        seq![hex_digit(n)]
    } else {
        hex_digits(n / 16).push(hex_digit(n % 16))
    }
}

/// Decimal rendering of `n`, without leading zeros (`{}`).
pub open spec fn dec_digits(n: nat) -> Seq<u8>
    decreases n,
{
    if n < 10 {
        seq![dec_digit(n)]
    } else {
        dec_digits(n / 10).push(dec_digit(n % 10))
    }
}

/// `s` padded on the left with `'0'` up to `width` characters (`{:0width}`).
pub open spec fn zero_pad(s: Seq<u8>, width: nat) -> Seq<u8> {
    if s.len() >= width {
        s
    } else {
        Seq::new((width - s.len()) as nat, |i: int| 48u8) + s
    }
}

/// Two lower-case hexadecimal digits of a byte (`{:02x}`).
pub open spec fn hex_byte(b: u8) -> Seq<u8> {
    seq![hex_digit((b / 16) as nat), hex_digit((b % 16) as nat)]
}

/// The hexadecimal renderings of `bytes` separated by single spaces.
pub open spec fn hex_list(bytes: Seq<u8>) -> Seq<u8>
    decreases bytes.len(),
{
    if bytes.len() == 0 {
        Seq::empty()
    } else if bytes.len() == 1 {
        hex_byte(bytes[0])
    } else {
        hex_list(bytes.drop_last()) + seq![' ' as u8] + hex_byte(bytes.last())
    }
}

/// Compact rendering of a byte slice: `[00 01 02 ff]`.
pub open spec fn hex_slice_text(bytes: Seq<u8>) -> Seq<u8> {
    seq!['[' as u8] + hex_list(bytes) + seq![']' as u8]
}

/// Appends the hexadecimal digits of `n` to `out`.
fn push_hex(out: &mut Vec<u8>, n: u64)
    requires
        is_ascii_bytes(old(out)@),
    ensures
        is_ascii_bytes(final(out)@),
        final(out)@ == old(out)@ + hex_digits(n as nat),
    decreases n,
{
    if n >= 16 {
        push_hex(out, n / 16);
    }
    let d = (n % 16) as u8;
    let c = if d < 10 { 48 + d } else { 87 + d };
    out.push(c);
    proof {
        if n >= 16 {
            assert(hex_digits(n as nat) == hex_digits((n / 16) as nat).push(hex_digit((n % 16) as nat)));
        }
    }
    assert(out@ =~= old(out)@ + hex_digits(n as nat));
}

/// Appends the decimal digits of `n` to `out`.
fn push_dec(out: &mut Vec<u8>, n: u64)
    requires
        is_ascii_bytes(old(out)@),
    ensures
        is_ascii_bytes(final(out)@),
        final(out)@ == old(out)@ + dec_digits(n as nat),
    decreases n,
{
    if n >= 10 {
        push_dec(out, n / 10);
    }
    let d = (n % 10) as u8;
    out.push(48 + d);
    proof {
        if n >= 10 {
            assert(dec_digits(n as nat) == dec_digits((n / 10) as nat).push(dec_digit((n % 10) as nat)));
        }
    }
    assert(out@ =~= old(out)@ + dec_digits(n as nat));
}

/// Appends `digits` left-padded with zeros to `width` characters.
fn push_zero_padded(out: &mut Vec<u8>, digits: &[u8], width: usize)
    requires
        is_ascii_bytes(old(out)@),
        is_ascii_bytes(digits@),
    ensures
        is_ascii_bytes(final(out)@),
        final(out)@ == old(out)@ + zero_pad(digits@, width as nat),
{
    let l = digits.len();
    let ghost start = out@;
    let mut i: usize = l;
    while i < width
        invariant
            l <= i,
            i <= width || i == l,
            out@ == start + Seq::new((i - l) as nat, |k: int| 48u8),
        decreases width - i,
    {
        out.push(48);
        i = i + 1;
        assert(out@ =~= start + Seq::new((i - l) as nat, |k: int| 48u8));
    }
    out.extend_from_slice(digits);
    assert(out@ =~= start + zero_pad(digits@, width as nat));
}

/// Appends `n` in decimal, left-padded with zeros to `width` characters.
fn push_dec_padded(out: &mut Vec<u8>, n: u64, width: usize)
    requires
        is_ascii_bytes(old(out)@),
    ensures
        is_ascii_bytes(final(out)@),
        final(out)@ == old(out)@ + zero_pad(dec_digits(n as nat), width as nat),
{
    let mut digits: Vec<u8> = Vec::new();
    assert(is_ascii_bytes(digits@));
    push_dec(&mut digits, n);
    assert(digits@ =~= dec_digits(n as nat));
    push_zero_padded(out, digits.as_slice(), width);
}

/// Appends the two hexadecimal digits of `b`.
fn push_hex_byte(out: &mut Vec<u8>, b: u8)
    requires
        is_ascii_bytes(old(out)@),
    ensures
        is_ascii_bytes(final(out)@),
        final(out)@ == old(out)@ + hex_byte(b),
{
    let hi = b / 16;
    let lo = b % 16;
    out.push(if hi < 10 { 48 + hi } else { 87 + hi });
    out.push(if lo < 10 { 48 + lo } else { 87 + lo });
    assert(out@ =~= old(out)@ + hex_byte(b));
}

/// Wrapper giving a byte slice a stable, compact rendering such as `[00 01 02 ff]`.
pub struct HexSlice<'a>(pub &'a [u8]);

impl<'a> HexSlice<'a> {
    /// The rendering `[b0 b1 ...]`, each byte as two lower-case hexadecimal digits.
    pub fn to_string(&self) -> (r: String)
        ensures
            r@ == ascii_text(hex_slice_text(self.0@)),
    {
        let bytes = self.0;
        let mut out: Vec<u8> = Vec::new();
        out.push('[' as u8);
        let mut i: usize = 0;
        while i < bytes.len()
            invariant
                i <= bytes@.len(),
                is_ascii_bytes(out@),
                out@ == seq!['[' as u8] + hex_list(bytes@.take(i as int)),
            decreases bytes@.len() - i,
        {
            if i != 0 {
                out.push(' ' as u8);
            }
            push_hex_byte(&mut out, bytes[i]);
            proof {
                let t = bytes@.take(i + 1);
                assert(t.drop_last() =~= bytes@.take(i as int));
                assert(t.last() == bytes@[i as int]);
                if i == 0 {
                    assert(hex_list(bytes@.take(0)) =~= Seq::<u8>::empty());
                }
            }
            i = i + 1;
            assert(out@ =~= seq!['[' as u8] + hex_list(bytes@.take(i as int)));
        }
        out.push(']' as u8);
        assert(bytes@.take(bytes@.len() as int) =~= bytes@);
        assert(out@ =~= hex_slice_text(bytes@));
        string_from_ascii(out.as_slice())
    }
}

/// Number of bytes in a kibibyte.
pub const KIB: u64 = 1024;

/// Number of bytes in a mebibyte.
pub const MIB: u64 = 1048576;

/// Number of bytes in a gibibyte.
pub const GIB: u64 = 1073741824;

/// `b` bytes in the binary unit `unit`: the whole part, a point, three decimals rounded
/// down, a space and the unit's name.
pub open spec fn unit_text(b: nat, unit: nat, name: Seq<u8>) -> Seq<u8> {
    dec_digits(b / unit) + seq!['.' as u8] + zero_pad(dec_digits((b % unit) * 1000 / unit), 3)
        + seq![' ' as u8] + name
}

/// Human-friendly rendering of a byte count: `999 B`, `1.000 KiB`, `1.500 MiB`, `2.000 GiB`.
pub open spec fn byte_fmt_text(b: nat) -> Seq<u8> {
    if b >= GIB {
        unit_text(b, GIB as nat, seq!['G' as u8, 'i' as u8, 'B' as u8])
    } else if b >= MIB {
        unit_text(b, MIB as nat, seq!['M' as u8, 'i' as u8, 'B' as u8])
    } else if b >= KIB {
        unit_text(b, KIB as nat, seq!['K' as u8, 'i' as u8, 'B' as u8])
    } else {
        dec_digits(b) + seq![' ' as u8, 'B' as u8]
    }
}

/// Formats a byte count using binary units (KiB, MiB, GiB), keeping three decimals
/// rounded down for the larger units.
pub struct ByteFmt(pub u64);

/// Appends `b` expressed in `unit` followed by the unit's name.
fn push_unit(out: &mut Vec<u8>, b: u64, unit: u64, c: u8)
    requires
        is_ascii_bytes(old(out)@),
        unit == KIB || unit == MIB || unit == GIB,
        c < 128,
    ensures
        is_ascii_bytes(final(out)@),
        final(out)@ == old(out)@ + unit_text(b as nat, unit as nat, seq![c, 'i' as u8, 'B' as u8]),
{
    let ghost start = out@;
    push_dec(out, b / unit);
    out.push('.' as u8);
    let frac = (b % unit) * 1000 / unit;
    push_dec_padded(out, frac, 3);
    out.push(' ' as u8);
    out.push(c);
    out.push('i' as u8);
    out.push('B' as u8);
    assert(out@ =~= start + unit_text(b as nat, unit as nat, seq![c, 'i' as u8, 'B' as u8]));
}

impl ByteFmt {
    /// The rendering described by `byte_fmt_text`.
    pub fn to_string(&self) -> (r: String)
        ensures
            r@ == ascii_text(byte_fmt_text(self.0 as nat)),
    {
        let b = self.0;
        let mut out: Vec<u8> = Vec::new();
        assert(is_ascii_bytes(out@));
        if b >= GIB {
            push_unit(&mut out, b, GIB, 'G' as u8);
        } else if b >= MIB {
            push_unit(&mut out, b, MIB, 'M' as u8);
        } else if b >= KIB {
            push_unit(&mut out, b, KIB, 'K' as u8);
        } else {
            push_dec(&mut out, b);
            out.push(' ' as u8);
            out.push('B' as u8);
        }
        assert(out@ =~= byte_fmt_text(b as nat));
        string_from_ascii(out.as_slice())
    }
}

/// `0x` followed by the lower-case hexadecimal digits of `n`.
pub open spec fn addr_text(n: nat) -> Seq<u8> {
    seq!['0' as u8, 'x' as u8] + hex_digits(n)
}

/// Formats an address as lower-case hexadecimal with a `0x` prefix.
pub struct Addr(pub usize);

impl Addr {
    /// The rendering described by `addr_text`.
    pub fn to_string(&self) -> (r: String)
        ensures
            r@ == ascii_text(addr_text(self.0 as nat)),
    {
        let mut out: Vec<u8> = Vec::new();
        out.push('0' as u8);
        out.push('x' as u8);
        push_hex(&mut out, self.0 as u64);
        assert(out@ =~= addr_text(self.0 as nat));
        string_from_ascii(out.as_slice())
    }
}

/// Bytes per hexdump line: `columns`, or 16 when `columns` is 0.
pub open spec fn hexdump_cols(columns: usize) -> nat {
    if columns == 0 {
        16
    } else {
        columns as nat
    }
}

/// The character shown for `b` in a hexdump's text column: printable ASCII as itself,
/// anything else as `.`.
pub open spec fn printable(b: u8) -> u8 {
    if 0x20 <= b <= 0x7e {
        b
    } else {
        '.' as u8
    }
}

/// `unit` repeated `n` times.
pub open spec fn repeat(unit: Seq<u8>, n: nat) -> Seq<u8>
    decreases n,
{
    if n == 0 {
        Seq::empty()
    } else {
        repeat(unit, (n - 1) as nat) + unit
    }
}

/// Each byte as two hexadecimal digits followed by a space.
pub open spec fn hex_cells(chunk: Seq<u8>) -> Seq<u8>
    decreases chunk.len(),
{
    if chunk.len() == 0 {
        Seq::empty()
    } else {
        hex_cells(chunk.drop_last()) + hex_byte(chunk.last()) + seq![' ' as u8]
    }
}

/// One hexdump line for the bytes `chunk` found at `offset`, laid out for `cols` bytes:
/// `0x` and the offset in at least eight hexadecimal digits, `: `, the hexadecimal cells
/// padded with blanks to `cols` cells, then the text column between `|` bars, padded with
/// spaces to `cols` characters, and a newline.
pub open spec fn hexdump_line(chunk: Seq<u8>, offset: nat, cols: nat) -> Seq<u8> {
    let missing = (cols - chunk.len()) as nat;
    seq!['0' as u8, 'x' as u8] + zero_pad(hex_digits(offset), 8) + seq![':' as u8, ' ' as u8]
        + hex_cells(chunk) + repeat(seq![' ' as u8, ' ' as u8, ' ' as u8], missing) + seq![
        '|' as u8,
    ] + chunk.map_values(|b: u8| printable(b)) + repeat(seq![' ' as u8], missing) + seq![
        '|' as u8,
        '\n' as u8,
    ]
}

/// The hexdump lines of `bytes` from `offset` on, `cols` bytes per line.
pub open spec fn hexdump_from(bytes: Seq<u8>, offset: nat, cols: nat) -> Seq<u8>
    decreases bytes.len() - offset,
{
    if cols == 0 || offset >= bytes.len() {
        Seq::empty()
    } else {
        let end = if offset + cols < bytes.len() {
            offset + cols
        } else {
            bytes.len() as nat
        };
        hexdump_line(bytes.subrange(offset as int, end as int), offset, cols) + hexdump_from(
            bytes,
            end,
            cols,
        )
    }
}

/// The whole hexdump of `bytes` with `columns` bytes per line (16 when `columns` is 0).
pub open spec fn hexdump_text(bytes: Seq<u8>, columns: usize) -> Seq<u8> {
    hexdump_from(bytes, 0, hexdump_cols(columns))
}

/// The characters of two ASCII byte sequences, one after the other.
proof fn lemma_ascii_text_append(a: Seq<u8>, b: Seq<u8>)
    ensures
        ascii_text(a + b) == ascii_text(a) + ascii_text(b),
{
    assert(ascii_text(a + b) =~= ascii_text(a) + ascii_text(b));
}

/// Extends a run that wrote the ASCII text `acc` by a run that wrote the ASCII text `seg`.
proof fn lemma_extend_run<'a, S: LogSink + ?Sized>(
    states: Seq<&'a S>,
    pieces: Seq<Seq<char>>,
    acc: Seq<u8>,
    start: &'a S,
    next: (Seq<&'a S>, Seq<Seq<char>>),
    seg: Seq<u8>,
) -> (res: (Seq<&'a S>, Seq<Seq<char>>))
    requires
        wrote(states, pieces, start, next.0[0], ascii_text(acc)),
        wrote(next.0, next.1, next.0[0], next.0.last(), ascii_text(seg)),
    ensures
        wrote(res.0, res.1, start, next.0.last(), ascii_text(acc + seg)),
        res.0 == states + next.0.drop_first(),
        res.1 == pieces + next.1,
{
    lemma_wrote_append(
        states,
        pieces,
        next.0,
        next.1,
        start,
        next.0[0],
        next.0.last(),
        ascii_text(acc),
        ascii_text(seg),
    );
    lemma_ascii_text_append(acc, seg);
    (states + next.0.drop_first(), pieces + next.1)
}

/// Writes the ASCII bytes `bytes` to `sink` as one fragment.
fn write_ascii<'a, S: LogSink + ?Sized>(sink: &mut S, bytes: &[u8]) -> (run: Ghost<
    (Seq<&'a S>, Seq<Seq<char>>),
>)
    requires
        is_ascii_bytes(bytes@),
    ensures
        wrote(run@.0, run@.1, &*old(sink), &*final(sink), ascii_text(bytes@)),
{
    proof {
        lemma_ascii_encoding(bytes@);
        encode_utf8_valid_utf8(ascii_text(bytes@));
    }
    let ghost before: &S = &*sink;
    match str_from_utf8(bytes) {
        Some(text) => {
            sink.write_str(text);
            let ghost after: &S = &*sink;
            proof {
                lemma_wrote_one(before, after, text@);
            }
            Ghost((seq![before, after], seq![text@]))
        },
        None => {
            proof {
                lemma_wrote_nothing(before);
            }
            Ghost((seq![before], Seq::empty()))
        },
    }
}

/// The step behind `{:0w$x}`: `n` padded to `w` digits is `n / 16` padded to one digit fewer,
/// followed by the last digit, unless a single digit is all there is to write.
proof fn lemma_zero_pad_hex_step(n: nat, w: nat)
    requires
        n >= 16 || w > 1,
    ensures
        zero_pad(hex_digits(n), w) == zero_pad(
            hex_digits(n / 16),
            if w > 0 { (w - 1) as nat } else { 0 },
        ) + seq![hex_digit(n % 16)],
{
    let w2: nat = if w > 0 { (w - 1) as nat } else { 0 };
    if n >= 16 {
        let h = hex_digits(n / 16);
        assert(hex_digits(n) == h.push(hex_digit(n % 16)));
        assert(zero_pad(hex_digits(n), w) =~= zero_pad(h, w2) + seq![hex_digit(n % 16)]);
    } else {
        assert(hex_digits(n) == seq![hex_digit(n)]);
        assert(hex_digits(n / 16) == seq![hex_digit(0)]);
        assert(zero_pad(hex_digits(n), w) =~= zero_pad(hex_digits(n / 16), w2) + seq![
            hex_digit(n % 16),
        ]);
    }
}

/// Writes `n` in hexadecimal, zero-padded to `w` digits, one digit per fragment.
fn write_hex_padded<'a, S: LogSink + ?Sized>(sink: &mut S, n: u64, w: usize) -> (run: Ghost<
    (Seq<&'a S>, Seq<Seq<char>>),
>)
    ensures
        wrote(
            run@.0,
            run@.1,
            &*old(sink),
            &*final(sink),
            ascii_text(zero_pad(hex_digits(n as nat), w as nat)),
        ),
    decreases n + w,
{
    let ghost start: &S = &*sink;
    let d = (n % 16) as u8;
    let digit: [u8; 1] = [if d < 10 { 48 + d } else { 87 + d }];
    assert(digit@ =~= seq![hex_digit((n % 16) as nat)]);
    if n >= 16 || w > 1 {
        let w2 = if w > 0 { w - 1 } else { 0 };
        let r1 = write_hex_padded(sink, n / 16, w2);
        let r2 = write_ascii(sink, digit.as_slice());
        proof {
            lemma_zero_pad_hex_step(n as nat, w as nat);
            let res = lemma_extend_run(
                r1@.0,
                r1@.1,
                zero_pad(hex_digits((n / 16) as nat), w2 as nat),
                start,
                r2@,
                digit@,
            );
            assert(res.0 == r1@.0 + r2@.0.drop_first());
            assert(res.1 == r1@.1 + r2@.1);
        }
        Ghost((r1@.0 + r2@.0.drop_first(), r1@.1 + r2@.1))
    } else {
        assert(zero_pad(hex_digits(n as nat), w as nat) =~= digit@);
        write_ascii(sink, digit.as_slice())
    }
}

/// Writes the hexadecimal cells of `chunk`, one fragment per byte.
fn write_hex_cells<'a, S: LogSink + ?Sized>(sink: &mut S, chunk: &[u8]) -> (run: Ghost<
    (Seq<&'a S>, Seq<Seq<char>>),
>)
    ensures
        wrote(run@.0, run@.1, &*old(sink), &*final(sink), ascii_text(hex_cells(chunk@))),
{
    let ghost start: &S = &*sink;
    let ghost mut states: Seq<&'a S> = seq![start];
    let ghost mut pieces: Seq<Seq<char>> = Seq::empty();
    proof {
        lemma_wrote_nothing(start);
        assert(ascii_text(hex_cells(chunk@.take(0))) =~= Seq::<char>::empty());
    }
    let mut i: usize = 0;
    while i < chunk.len()
        invariant
            i <= chunk@.len(),
            wrote(states, pieces, start, &*sink, ascii_text(hex_cells(chunk@.take(i as int)))),
        decreases chunk@.len() - i,
    {
        let b = chunk[i];
        let hi = b / 16;
        let lo = b % 16;
        let cell: [u8; 3] = [
            if hi < 10 { 48 + hi } else { 87 + hi },
            if lo < 10 { 48 + lo } else { 87 + lo },
            32,
        ];
        assert(cell@ =~= hex_byte(b) + seq![' ' as u8]);
        let r = write_ascii(sink, cell.as_slice());
        proof {
            let res = lemma_extend_run(
                states,
                pieces,
                hex_cells(chunk@.take(i as int)),
                start,
                r@,
                cell@,
            );
            let t = chunk@.take(i + 1);
            assert(t.drop_last() =~= chunk@.take(i as int));
            assert(t.last() == b);
            assert(hex_cells(t) =~= hex_cells(chunk@.take(i as int)) + cell@);
            states = res.0;
            pieces = res.1;
        }
        i = i + 1;
    }
    assert(chunk@.take(chunk@.len() as int) =~= chunk@);
    Ghost((states, pieces))
}

/// Writes `unit` `n` times, one fragment each time.
fn write_repeat<'a, S: LogSink + ?Sized>(sink: &mut S, unit: &[u8], n: usize) -> (run: Ghost<
    (Seq<&'a S>, Seq<Seq<char>>),
>)
    requires
        is_ascii_bytes(unit@),
    ensures
        wrote(run@.0, run@.1, &*old(sink), &*final(sink), ascii_text(repeat(unit@, n as nat))),
{
    let ghost start: &S = &*sink;
    let ghost mut states: Seq<&'a S> = seq![start];
    let ghost mut pieces: Seq<Seq<char>> = Seq::empty();
    proof {
        lemma_wrote_nothing(start);
        assert(ascii_text(repeat(unit@, 0)) =~= Seq::<char>::empty());
    }
    let mut i: usize = 0;
    while i < n
        invariant
            i <= n,
            is_ascii_bytes(unit@),
            wrote(states, pieces, start, &*sink, ascii_text(repeat(unit@, i as nat))),
        decreases n - i,
    {
        let r = write_ascii(sink, unit);
        proof {
            let res = lemma_extend_run(states, pieces, repeat(unit@, i as nat), start, r@, unit@);
            assert(repeat(unit@, (i + 1) as nat) == repeat(unit@, i as nat) + unit@);
            states = res.0;
            pieces = res.1;
        }
        i = i + 1;
    }
    Ghost((states, pieces))
}

/// Writes the text column of `chunk`, one fragment per byte.
fn write_printable<'a, S: LogSink + ?Sized>(sink: &mut S, chunk: &[u8]) -> (run: Ghost<
    (Seq<&'a S>, Seq<Seq<char>>),
>)
    ensures
        wrote(
            run@.0,
            run@.1,
            &*old(sink),
            &*final(sink),
            ascii_text(chunk@.map_values(|b: u8| printable(b))),
        ),
{
    let ghost start: &S = &*sink;
    let ghost mut states: Seq<&'a S> = seq![start];
    let ghost mut pieces: Seq<Seq<char>> = Seq::empty();
    proof {
        lemma_wrote_nothing(start);
        assert(ascii_text(chunk@.take(0).map_values(|b: u8| printable(b))) =~= Seq::<
            char,
        >::empty());
    }
    let mut j: usize = 0;
    while j < chunk.len()
        invariant
            j <= chunk@.len(),
            wrote(
                states,
                pieces,
                start,
                &*sink,
                ascii_text(chunk@.take(j as int).map_values(|b: u8| printable(b))),
            ),
        decreases chunk@.len() - j,
    {
        let b = chunk[j];
        let c: [u8; 1] = [if 0x20 <= b && b <= 0x7e { b } else { '.' as u8 }];
        assert(c@ =~= seq![printable(b)]);
        let r = write_ascii(sink, c.as_slice());
        proof {
            let res = lemma_extend_run(
                states,
                pieces,
                chunk@.take(j as int).map_values(|b: u8| printable(b)),
                start,
                r@,
                c@,
            );
            assert(chunk@.take(j as int).map_values(|b: u8| printable(b)) + c@ =~= chunk@.take(
                j + 1,
            ).map_values(|b: u8| printable(b)));
            states = res.0;
            pieces = res.1;
        }
        j = j + 1;
    }
    assert(chunk@.take(chunk@.len() as int) =~= chunk@);
    Ghost((states, pieces))
}

/// Writes the hexdump line for `chunk`, found at `offset`, laid out for `cols` bytes: `0x`,
/// the offset's digits, `: `, a fragment per cell, the blanks, `|`, a fragment per text
/// character, the spaces, `|` and the newline.
#[verifier::rlimit(30)]
fn write_hexdump_line<'a, S: LogSink + ?Sized>(
    sink: &mut S,
    chunk: &[u8],
    offset: usize,
    cols: usize,
) -> (run: Ghost<(Seq<&'a S>, Seq<Seq<char>>)>)
    requires
        chunk@.len() <= cols,
    ensures
        wrote(
            run@.0,
            run@.1,
            &*old(sink),
            &*final(sink),
            ascii_text(hexdump_line(chunk@, offset as nat, cols as nat)),
        ),
{
    let ghost start: &S = &*sink;
    let missing = cols - chunk.len();
    let prefix: [u8; 2] = ['0' as u8, 'x' as u8];
    let colon: [u8; 2] = [':' as u8, ' ' as u8];
    let blank3: [u8; 3] = [' ' as u8, ' ' as u8, ' ' as u8];
    let blank1: [u8; 1] = [' ' as u8];
    let bar: [u8; 1] = ['|' as u8];
    let newline: [u8; 1] = ['\n' as u8];
    assert(prefix@ =~= seq!['0' as u8, 'x' as u8]);
    assert(colon@ =~= seq![':' as u8, ' ' as u8]);
    assert(blank3@ =~= seq![' ' as u8, ' ' as u8, ' ' as u8]);
    assert(blank1@ =~= seq![' ' as u8]);
    assert(bar@ =~= seq!['|' as u8]);
    assert(newline@ =~= seq!['\n' as u8]);
    let r = write_ascii(sink, prefix.as_slice());
    let ghost mut states: Seq<&'a S> = r@.0;
    let ghost mut pieces: Seq<Seq<char>> = r@.1;
    let ghost mut acc: Seq<u8> = prefix@;
    let r = write_hex_padded(sink, offset as u64, 8);
    proof {
        let res = lemma_extend_run(states, pieces, acc, start, r@, zero_pad(hex_digits(offset as nat), 8));
        states = res.0;
        pieces = res.1;
        acc = acc + zero_pad(hex_digits(offset as nat), 8);
    }
    let r = write_ascii(sink, colon.as_slice());
    proof {
        let res = lemma_extend_run(states, pieces, acc, start, r@, colon@);
        states = res.0;
        pieces = res.1;
        acc = acc + colon@;
    }
    let r = write_hex_cells(sink, chunk);
    proof {
        let res = lemma_extend_run(states, pieces, acc, start, r@, hex_cells(chunk@));
        states = res.0;
        pieces = res.1;
        acc = acc + hex_cells(chunk@);
    }
    let r = write_repeat(sink, blank3.as_slice(), missing);
    proof {
        let res = lemma_extend_run(states, pieces, acc, start, r@, repeat(blank3@, missing as nat));
        states = res.0;
        pieces = res.1;
        acc = acc + repeat(blank3@, missing as nat);
    }
    let r = write_ascii(sink, bar.as_slice());
    proof {
        let res = lemma_extend_run(states, pieces, acc, start, r@, bar@);
        states = res.0;
        pieces = res.1;
        acc = acc + bar@;
    }
    let r = write_printable(sink, chunk);
    proof {
        let text = chunk@.map_values(|b: u8| printable(b));
        let res = lemma_extend_run(states, pieces, acc, start, r@, text);
        states = res.0;
        pieces = res.1;
        acc = acc + text;
    }
    let r = write_repeat(sink, blank1.as_slice(), missing);
    proof {
        let res = lemma_extend_run(states, pieces, acc, start, r@, repeat(blank1@, missing as nat));
        states = res.0;
        pieces = res.1;
        acc = acc + repeat(blank1@, missing as nat);
    }
    let r = write_ascii(sink, bar.as_slice());
    proof {
        let res = lemma_extend_run(states, pieces, acc, start, r@, bar@);
        states = res.0;
        pieces = res.1;
        acc = acc + bar@;
    }
    let r = write_ascii(sink, newline.as_slice());
    proof {
        let res = lemma_extend_run(states, pieces, acc, start, r@, newline@);
        states = res.0;
        pieces = res.1;
        acc = acc + newline@;
        assert(acc =~= hexdump_line(chunk@, offset as nat, cols as nat));
    }
    Ghost((states, pieces))
}

/// Writes the hexdump of `bytes` to `sink` (its text is `hexdump_text`), line by line and
/// fragment by fragment, without building it in memory; an empty input writes nothing and
/// leaves the sink untouched.
pub fn hexdump_to_sink<S: LogSink + ?Sized>(bytes: &[u8], sink: &mut S, columns: usize)
    ensures
        bytes@.len() == 0 ==> &*final(sink) == &*old(sink),
        exists|states: Seq<&S>, pieces: Seq<Seq<char>>|
            wrote(
                states,
                pieces,
                &*old(sink),
                &*final(sink),
                ascii_text(hexdump_text(bytes@, columns)),
            ),
{
    let ghost start: &S = &*sink;
    let ghost mut states: Seq<&S> = seq![start];
    let ghost mut pieces: Seq<Seq<char>> = Seq::empty();
    let ghost mut acc: Seq<u8> = Seq::empty();
    proof {
        lemma_wrote_nothing(start);
        assert(ascii_text(acc) =~= Seq::<char>::empty());
    }
    if bytes.len() == 0 {
        assert(hexdump_text(bytes@, columns) =~= acc);
        assert(wrote(states, pieces, start, &*sink, ascii_text(hexdump_text(bytes@, columns))));
        return;
    }
    let cols: usize = if columns == 0 { 16 } else { columns };
    let mut offset: usize = 0;
    while offset < bytes.len()
        invariant
            offset <= bytes@.len(),
            cols == hexdump_cols(columns),
            cols > 0,
            wrote(states, pieces, start, &*sink, ascii_text(acc)),
            acc + hexdump_from(bytes@, offset as nat, cols as nat) == hexdump_text(bytes@, columns),
        decreases bytes@.len() - offset,
    {
        let end = if cols < bytes.len() - offset { offset + cols } else { bytes.len() };
        let chunk = slice_subrange(bytes, offset, end);
        let r = write_hexdump_line(sink, chunk, offset, cols);
        proof {
            let line = hexdump_line(chunk@, offset as nat, cols as nat);
            let res = lemma_extend_run(states, pieces, acc, start, r@, line);
            states = res.0;
            pieces = res.1;
            assert(acc + line + hexdump_from(bytes@, end as nat, cols as nat) =~= acc
                + hexdump_from(bytes@, offset as nat, cols as nat));
            acc = acc + line;
        }
        offset = end;
    }
    assert(acc =~= hexdump_text(bytes@, columns));
}

/// Zero columns means sixteen: the hexdump with `columns == 0` is the one with
/// `columns == 16`, for every input.
pub proof fn lemma_hexdump_zero_columns_is_sixteen(bytes: Seq<u8>)
    ensures
        hexdump_text(bytes, 0) == hexdump_text(bytes, 16),
{
}

} // verus!
