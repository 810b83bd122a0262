//! Laws of the renderings in `fmt`: each rendering read back gives the value rendered.

use vstd::prelude::*;

use crate::fmt::{
    GIB, KIB, MIB, addr_text, byte_fmt_text, dec_digit, dec_digits, hex_byte, hex_cells, hex_digit,
    hex_digits, hex_list, hex_slice_text, hexdump_cols, hexdump_from, hexdump_line, hexdump_text,
    repeat, unit_text, zero_pad,
};

verus! {

/// `c` is an ASCII decimal digit.
pub open spec fn is_dec_char(c: u8) -> bool {
    '0' as u8 <= c <= '9' as u8
}

/// `c` is a lower-case ASCII hexadecimal digit.
pub open spec fn is_lower_hex_char(c: u8) -> bool {
    ('0' as u8 <= c <= '9' as u8) || ('a' as u8 <= c <= 'f' as u8)
}

/// The value of a lower-case hexadecimal digit character.
pub open spec fn hex_char_value(c: u8) -> int {
    if c <= '9' as u8 {
        c - '0' as u8
    } else {
        c - 'a' as u8 + 10
    }
}

/// The number denoted by decimal digit characters, most significant first.
pub open spec fn dec_value(s: Seq<u8>) -> int
    decreases s.len(),
{
    if s.len() == 0 {
        0
    } else {
        dec_value(s.drop_last()) * 10 + (s.last() - '0' as u8)
    }
}

/// The number denoted by hexadecimal digit characters, most significant first.
pub open spec fn hex_value(s: Seq<u8>) -> int
    decreases s.len(),
{
    if s.len() == 0 {
        0
    } else {
        hex_value(s.drop_last()) * 16 + hex_char_value(s.last())
    }
}

/// Every character of `s` is a decimal digit.
pub open spec fn all_dec(s: Seq<u8>) -> bool {
    forall|i: int| 0 <= i < s.len() ==> is_dec_char(#[trigger] s[i])
}

/// Every character of `s` is a lower-case hexadecimal digit.
pub open spec fn all_lower_hex(s: Seq<u8>) -> bool {
    forall|i: int| 0 <= i < s.len() ==> is_lower_hex_char(#[trigger] s[i])
}

proof fn lemma_hex_digit_reads_back(d: nat)
    requires
        d < 16,
    ensures
        is_lower_hex_char(hex_digit(d)),
        hex_char_value(hex_digit(d)) == d,
{
}

proof fn lemma_dec_digit_reads_back(d: nat)
    requires
        d < 10,
    ensures
        is_dec_char(dec_digit(d)),
        dec_digit(d) - '0' as u8 == d,
{
}

/// The hexadecimal rendering of `n` consists of lower-case hex digits, reads back as `n`,
/// and starts with `0` only when it is `0` itself.
pub proof fn lemma_hex_digits_read_back(n: nat)
    ensures
        all_lower_hex(hex_digits(n)),
        hex_value(hex_digits(n)) == n,
        hex_digits(n).len() >= 1,
        hex_digits(n)[0] == '0' as u8 <==> n == 0,
        n == 0 ==> hex_digits(n).len() == 1,
    decreases n,
{
    if n < 16 {
        lemma_hex_digit_reads_back(n);
        let s = hex_digits(n);
        assert(s.drop_last() =~= Seq::<u8>::empty());
        assert(hex_value(s.drop_last()) == 0);
        assert(s.last() == hex_digit(n));
        assert(hex_value(s) == hex_value(s.drop_last()) * 16 + hex_char_value(s.last()));
    } else {
        lemma_hex_digits_read_back(n / 16);
        lemma_hex_digit_reads_back(n % 16);
        let s = hex_digits(n);
        assert(s.drop_last() == hex_digits(n / 16));
        assert(s.last() == hex_digit(n % 16));
        assert((n / 16) * 16 + n % 16 == n);
        assert(hex_value(s) == hex_value(s.drop_last()) * 16 + hex_char_value(s.last()));
        assert(s[0] == hex_digits(n / 16)[0]);
    }
}

/// The decimal rendering of `n` consists of decimal digits and reads back as `n`.
pub proof fn lemma_dec_digits_read_back(n: nat)
    ensures
        all_dec(dec_digits(n)),
        dec_value(dec_digits(n)) == n,
        dec_digits(n).len() >= 1,
        n < 10 ==> dec_digits(n).len() == 1,
        n < 100 ==> dec_digits(n).len() <= 2,
        n < 1000 ==> dec_digits(n).len() <= 3,
    decreases n,
{
    if n < 10 {
        lemma_dec_digit_reads_back(n);
        let s = dec_digits(n);
        assert(s.drop_last() =~= Seq::<u8>::empty());
        assert(dec_value(s.drop_last()) == 0);
        assert(s.last() == dec_digit(n));
        assert(dec_value(s) == dec_value(s.drop_last()) * 10 + (s.last() - '0' as u8));
    } else {
        lemma_dec_digits_read_back(n / 10);
        lemma_dec_digit_reads_back(n % 10);
        let s = dec_digits(n);
        assert(s.drop_last() == dec_digits(n / 10));
        assert(s.last() == dec_digit(n % 10));
        assert((n / 10) * 10 + n % 10 == n);
        assert(dec_value(s) == dec_value(s.drop_last()) * 10 + (s.last() - '0' as u8));
    }
}

/// Leading zeros do not change the value of a decimal string.
pub proof fn lemma_dec_value_leading_zeros(z: nat, s: Seq<u8>)
    ensures
        dec_value(Seq::new(z, |i: int| '0' as u8) + s) == dec_value(s),
    decreases s.len() + z,
{
    let zs = Seq::new(z, |i: int| '0' as u8);
    if s.len() == 0 {
        assert(zs + s =~= zs);
        if z > 0 {
            assert(zs.drop_last() =~= Seq::new((z - 1) as nat, |i: int| '0' as u8));
            lemma_dec_value_leading_zeros((z - 1) as nat, s);
            assert(Seq::new((z - 1) as nat, |i: int| '0' as u8) + s =~= zs.drop_last());
        }
    } else {
        lemma_dec_value_leading_zeros(z, s.drop_last());
        assert((zs + s).drop_last() =~= zs + s.drop_last());
        assert((zs + s).last() == s.last());
    }
}

/// Leading zeros do not change the value of a hexadecimal string.
pub proof fn lemma_hex_value_leading_zeros(z: nat, s: Seq<u8>)
    ensures
        hex_value(Seq::new(z, |i: int| '0' as u8) + s) == hex_value(s),
    decreases s.len() + z,
{
    let zs = Seq::new(z, |i: int| '0' as u8);
    if s.len() == 0 {
        assert(zs + s =~= zs);
        if z > 0 {
            assert(zs.drop_last() =~= Seq::new((z - 1) as nat, |i: int| '0' as u8));
            lemma_hex_value_leading_zeros((z - 1) as nat, s);
            assert(Seq::new((z - 1) as nat, |i: int| '0' as u8) + s =~= zs.drop_last());
        }
    } else {
        lemma_hex_value_leading_zeros(z, s.drop_last());
        assert((zs + s).drop_last() =~= zs + s.drop_last());
        assert((zs + s).last() == s.last());
    }
}

/// An address renders as `0x` followed by lower-case hexadecimal digits that read back as
/// the address itself, over the whole range, with a leading `0` only for address 0.
pub proof fn lemma_addr_reads_back(n: nat)
    ensures
        addr_text(n).len() >= 3,
        addr_text(n)[0] == '0' as u8,
        addr_text(n)[1] == 'x' as u8,
        all_lower_hex(addr_text(n).skip(2)),
        hex_value(addr_text(n).skip(2)) == n,
        addr_text(n)[2] == '0' as u8 <==> n == 0,
        n == 0 ==> addr_text(n).len() == 3,
{
    lemma_hex_digits_read_back(n);
    assert(addr_text(n).skip(2) =~= hex_digits(n));
}

/// The rendering of a byte: two lower-case hexadecimal digits that read back as the byte.
pub proof fn lemma_hex_byte_reads_back(b: u8)
    ensures
        hex_byte(b).len() == 2,
        is_lower_hex_char(hex_byte(b)[0]),
        is_lower_hex_char(hex_byte(b)[1]),
        hex_char_value(hex_byte(b)[0]) * 16 + hex_char_value(hex_byte(b)[1]) == b,
{
    lemma_hex_digit_reads_back((b / 16) as nat);
    lemma_hex_digit_reads_back((b % 16) as nat);
}

/// Byte `k` of the space-separated byte list sits at `3k` and `3k + 1`, followed by a space
/// unless it is the last.
proof fn lemma_hex_list_at(bytes: Seq<u8>, k: int)
    requires
        0 <= k < bytes.len(),
    ensures
        hex_list(bytes).len() == 3 * bytes.len() - 1,
        is_lower_hex_char(hex_list(bytes)[3 * k]),
        is_lower_hex_char(hex_list(bytes)[3 * k + 1]),
        hex_char_value(hex_list(bytes)[3 * k]) * 16 + hex_char_value(hex_list(bytes)[3 * k + 1])
            == bytes[k],
        k < bytes.len() - 1 ==> hex_list(bytes)[3 * k + 2] == ' ' as u8,
    decreases bytes.len(),
{
    if bytes.len() == 1 {
        lemma_hex_byte_reads_back(bytes[0]);
        assert(hex_list(bytes) == hex_byte(bytes[0]));
    } else {
        let prefix = bytes.drop_last();
        let b = bytes.last();
        lemma_hex_byte_reads_back(b);
        let l = hex_list(bytes);
        let p = hex_list(prefix);
        assert(l == p + seq![' ' as u8] + hex_byte(b));
        if k < prefix.len() {
            lemma_hex_list_at(prefix, k);
            assert(prefix[k] == bytes[k]);
            assert(l[3 * k] == p[3 * k]);
            assert(l[3 * k + 1] == p[3 * k + 1]);
            if k < prefix.len() - 1 {
                assert(l[3 * k + 2] == p[3 * k + 2]);
            } else {
                assert(3 * k + 2 == p.len());
            }
        } else {
            lemma_hex_list_at(prefix, 0);
            assert(l[3 * k] == hex_byte(b)[0]);
            assert(l[3 * k + 1] == hex_byte(b)[1]);
        }
    }
}

/// A hex slice renders as `[`, then for each of its `n` bytes two lower-case hexadecimal
/// digits reading back as that byte (at positions `1 + 3k` and `2 + 3k`), separated by single
/// spaces, then `]`: `2` characters for no byte, `3n + 1` otherwise. No byte is left out.
pub proof fn lemma_hex_slice_reads_back(bytes: Seq<u8>)
    ensures
        hex_slice_text(bytes).len() == (if bytes.len() == 0 { 2 } else { 3 * bytes.len() + 1 }),
        hex_slice_text(bytes)[0] == '[' as u8,
        hex_slice_text(bytes)[hex_slice_text(bytes).len() - 1] == ']' as u8,
        forall|k: int|
            0 <= k < bytes.len() ==> is_lower_hex_char(#[trigger] hex_slice_text(bytes)[1 + 3 * k])
                && is_lower_hex_char(hex_slice_text(bytes)[2 + 3 * k]) && hex_char_value(
                hex_slice_text(bytes)[1 + 3 * k],
            ) * 16 + hex_char_value(hex_slice_text(bytes)[2 + 3 * k]) == bytes[k],
        forall|k: int|
            0 <= k < bytes.len() - 1 ==> #[trigger] hex_slice_text(bytes)[3 + 3 * k] == ' ' as u8,
{
    let t = hex_slice_text(bytes);
    let l = hex_list(bytes);
    assert(t == seq!['[' as u8] + l + seq![']' as u8]);
    if bytes.len() == 0 {
        assert(l.len() == 0);
    } else {
        lemma_hex_list_at(bytes, 0);
    }
    assert forall|k: int| 0 <= k < bytes.len() implies is_lower_hex_char(#[trigger] t[1 + 3 * k])
        && is_lower_hex_char(t[2 + 3 * k]) && hex_char_value(t[1 + 3 * k]) * 16 + hex_char_value(
        t[2 + 3 * k],
    ) == bytes[k] by {
        lemma_hex_list_at(bytes, k);
        assert(t[1 + 3 * k] == l[3 * k]);
        assert(t[2 + 3 * k] == l[3 * k + 1]);
    }
    assert forall|k: int| 0 <= k < bytes.len() - 1 implies #[trigger] t[3 + 3 * k] == ' ' as u8 by {
        lemma_hex_list_at(bytes, k);
        assert(t[3 + 3 * k] == l[3 * k + 2]);
    }
}

/// Three characters of `{:03}` for a value below 1000: decimal digits reading back as it.
proof fn lemma_three_decimals(f: nat)
    requires
        f < 1000,
    ensures
        zero_pad(dec_digits(f), 3).len() == 3,
        all_dec(zero_pad(dec_digits(f), 3)),
        dec_value(zero_pad(dec_digits(f), 3)) == f,
{
    lemma_dec_digits_read_back(f);
    let d = dec_digits(f);
    let z = (3 - d.len()) as nat;
    if d.len() < 3 {
        lemma_dec_value_leading_zeros(z, d);
        let p = Seq::new(z, |i: int| '0' as u8) + d;
        assert(zero_pad(d, 3) == p);
        assert forall|i: int| 0 <= i < p.len() implies is_dec_char(#[trigger] p[i]) by {
            if i >= z {
                assert(p[i] == d[i - z]);
            }
        }
    }
}

/// `b` in a binary unit reads back: the digits before the point are `b / unit`, the three
/// after it are `(b % unit) * 1000 / unit` (rounded down, with leading zeros), then a space
/// and the unit's three-letter name.
proof fn lemma_unit_text_reads_back(b: nat, unit: nat, name: Seq<u8>)
    requires
        unit == KIB || unit == MIB || unit == GIB,
        name.len() == 3,
    ensures
        ({
            let t = unit_text(b, unit, name);
            &&& t.len() >= 9
            &&& all_dec(t.take(t.len() - 8))
            &&& dec_value(t.take(t.len() - 8)) == b / unit
            &&& t[t.len() - 8] == '.' as u8
            &&& all_dec(t.subrange(t.len() - 7, t.len() - 4))
            &&& dec_value(t.subrange(t.len() - 7, t.len() - 4)) == (b % unit) * 1000 / unit
            &&& t[t.len() - 4] == ' ' as u8
            &&& t.subrange(t.len() - 3, t.len() as int) == name
        }),
{
    let f = (b % unit) * 1000 / unit;
    assert(f < 1000) by (nonlinear_arith)
        requires
            f == (b % unit) * 1000 / unit,
            b % unit < unit,
            unit > 0,
    ;
    lemma_three_decimals(f);
    lemma_dec_digits_read_back(b / unit);
    let w = dec_digits(b / unit);
    let frac = zero_pad(dec_digits(f), 3);
    let t = unit_text(b, unit, name);
    assert(t == w + seq!['.' as u8] + frac + seq![' ' as u8] + name);
    assert(t.take(t.len() - 8) =~= w);
    assert(t.subrange(t.len() - 7, t.len() - 4) =~= frac);
    assert(t.subrange(t.len() - 3, t.len() as int) =~= name);
}

/// A byte count reads back from its rendering. Below 1 KiB: decimal digits reading back as
/// the count, then ` B`. Otherwise, with the largest of KiB, MiB, GiB not above the count as
/// the unit: decimal digits reading back as the whole number of units, a point, three
/// decimal digits reading back as the thousandths of a unit rounded down (so that
/// `whole * 1000 + decimals == b * 1000 / unit`), a space and the unit's name.
pub proof fn lemma_byte_fmt_reads_back(b: u64)
    ensures
        ({
            let bn = b as nat;
            let t = byte_fmt_text(bn);
            let n = t.len();
            if b < KIB {
                &&& n >= 3
                &&& all_dec(t.take(n - 2))
                &&& dec_value(t.take(n - 2)) == b
                &&& t[n - 2] == ' ' as u8
                &&& t[n - 1] == 'B' as u8
            } else {
                let unit: nat = if b >= GIB {
                    GIB as nat
                } else if b >= MIB {
                    MIB as nat
                } else {
                    KIB as nat
                };
                let letter = if b >= GIB {
                    'G' as u8
                } else if b >= MIB {
                    'M' as u8
                } else {
                    'K' as u8
                };
                &&& n >= 9
                &&& all_dec(t.take(n - 8))
                &&& dec_value(t.take(n - 8)) == bn / unit
                &&& t[n - 8] == '.' as u8
                &&& all_dec(t.subrange(n - 7, n - 4))
                &&& dec_value(t.subrange(n - 7, n - 4)) == (bn % unit) * 1000 / unit
                &&& dec_value(t.take(n - 8)) * 1000 + dec_value(t.subrange(n - 7, n - 4)) == (bn
                    * 1000) / unit
                &&& t[n - 4] == ' ' as u8
                &&& t[n - 3] == letter
                &&& t[n - 2] == 'i' as u8
                &&& t[n - 1] == 'B' as u8
            }
        }),
{
    let t = byte_fmt_text(b as nat);
    if b < KIB {
        lemma_dec_digits_read_back(b as nat);
        assert(t.take(t.len() - 2) =~= dec_digits(b as nat));
    } else {
        let unit: nat = if b >= GIB {
            GIB as nat
        } else if b >= MIB {
            MIB as nat
        } else {
            KIB as nat
        };
        let letter = if b >= GIB {
            'G' as u8
        } else if b >= MIB {
            'M' as u8
        } else {
            'K' as u8
        };
        let name = seq![letter, 'i' as u8, 'B' as u8];
        assert(t == unit_text(b as nat, unit, name));
        lemma_unit_text_reads_back(b as nat, unit, name);
        let n = t.len();
        assert(t.subrange(n - 3, n as int)[0] == t[n - 3]);
        assert(t.subrange(n - 3, n as int)[1] == t[n - 2]);
        assert(t.subrange(n - 3, n as int)[2] == t[n - 1]);
        let bn = b as nat;
        assert((bn / unit) * 1000 + (bn % unit) * 1000 / unit == (bn * 1000) / unit) by (nonlinear_arith)
            requires
                unit > 0,
        {
            assert(bn == (bn / unit) * unit + bn % unit);
            assert(bn * 1000 == (bn / unit) * 1000 * unit + (bn % unit) * 1000);
        }
    }
}

/// `n` copies of a single space.
proof fn lemma_repeat_space(n: nat)
    ensures
        repeat(seq![' ' as u8], n).len() == n,
        forall|i: int| 0 <= i < n ==> #[trigger] repeat(seq![' ' as u8], n)[i] == ' ' as u8,
    decreases n,
{
    if n > 0 {
        lemma_repeat_space((n - 1) as nat);
        let r = repeat(seq![' ' as u8], n);
        assert(r == repeat(seq![' ' as u8], (n - 1) as nat) + seq![' ' as u8]);
        assert forall|i: int| 0 <= i < n implies #[trigger] r[i] == ' ' as u8 by {
            if i < n - 1 {
                assert(r[i] == repeat(seq![' ' as u8], (n - 1) as nat)[i]);
            }
        }
    }
}

/// The text column of every hexdump line: between two `|` bars and before the newline, the
/// `cols` characters show each byte `b` of the chunk as `b` itself when
/// `0x20 <= b <= 0x7e` (the space included) and as `.` otherwise, then spaces up to `cols`.
pub proof fn lemma_hexdump_line_text_column(chunk: Seq<u8>, offset: nat, cols: nat)
    requires
        chunk.len() <= cols,
    ensures
        ({
            let line = hexdump_line(chunk, offset, cols);
            let start = line.len() - cols - 2;
            &&& line.len() >= cols + 4
            &&& line[start - 1] == '|' as u8
            &&& line[line.len() - 2] == '|' as u8
            &&& line[line.len() - 1] == '\n' as u8
            &&& forall|k: int|
                0 <= k < chunk.len() ==> #[trigger] line[start + k] == (if 0x20 <= chunk[k]
                    <= 0x7e {
                    chunk[k]
                } else {
                    '.' as u8
                })
            &&& forall|k: int| chunk.len() <= k < cols ==> #[trigger] line[start + k] == ' ' as u8
        }),
{
    let missing = (cols - chunk.len()) as nat;
    let head = seq!['0' as u8, 'x' as u8] + zero_pad(hex_digits(offset), 8) + seq![
        ':' as u8,
        ' ' as u8,
    ] + hex_cells(chunk) + repeat(seq![' ' as u8, ' ' as u8, ' ' as u8], missing);
    let shown = chunk.map_values(|b: u8| crate::fmt::printable(b));
    let pad = repeat(seq![' ' as u8], missing);
    let line = hexdump_line(chunk, offset, cols);
    lemma_repeat_space(missing);
    assert(line == head + seq!['|' as u8] + shown + pad + seq!['|' as u8, '\n' as u8]);
    let start = line.len() - cols - 2;
    assert(start == head.len() + 1);
    assert forall|k: int| 0 <= k < chunk.len() implies #[trigger] line[start + k] == (if 0x20
        <= chunk[k] <= 0x7e {
        chunk[k]
    } else {
        '.' as u8
    }) by {
        assert(line[start + k] == shown[k]);
    }
    assert forall|k: int| chunk.len() <= k < cols implies #[trigger] line[start + k]
        == ' ' as u8 by {
        assert(line[start + k] == pad[k - chunk.len()]);
    }
}

/// Byte `k` of a hexdump chunk has its cell at `3k`: two hexadecimal digits reading back as
/// the byte, then a space.
proof fn lemma_hex_cells_at(chunk: Seq<u8>, k: int)
    requires
        0 <= k < chunk.len(),
    ensures
        hex_cells(chunk).len() == 3 * chunk.len(),
        is_lower_hex_char(hex_cells(chunk)[3 * k]),
        is_lower_hex_char(hex_cells(chunk)[3 * k + 1]),
        hex_char_value(hex_cells(chunk)[3 * k]) * 16 + hex_char_value(hex_cells(chunk)[3 * k + 1])
            == chunk[k],
        hex_cells(chunk)[3 * k + 2] == ' ' as u8,
    decreases chunk.len(),
{
    let prefix = chunk.drop_last();
    let b = chunk.last();
    lemma_hex_byte_reads_back(b);
    let c = hex_cells(chunk);
    let p = hex_cells(prefix);
    assert(c == p + hex_byte(b) + seq![' ' as u8]);
    if k < prefix.len() {
        lemma_hex_cells_at(prefix, k);
        assert(prefix[k] == chunk[k]);
        assert(c[3 * k] == p[3 * k]);
        assert(c[3 * k + 1] == p[3 * k + 1]);
        assert(c[3 * k + 2] == p[3 * k + 2]);
    } else {
        if prefix.len() > 0 {
            lemma_hex_cells_at(prefix, 0);
        } else {
            assert(p.len() == 0);
        }
        assert(c[3 * k] == hex_byte(b)[0]);
        assert(c[3 * k + 1] == hex_byte(b)[1]);
    }
}

/// `n` copies of three spaces (`u`).
proof fn lemma_repeat_three_spaces(u: Seq<u8>, n: nat)
    requires
        u == seq![' ' as u8, ' ' as u8, ' ' as u8],
    ensures
        repeat(u, n).len() == 3 * n,
        forall|i: int| 0 <= i < 3 * n ==> #[trigger] repeat(u, n)[i] == ' ' as u8,
    decreases n,
{
    if n > 0 {
        lemma_repeat_three_spaces(u, (n - 1) as nat);
        let r = repeat(u, n);
        assert(r == repeat(u, (n - 1) as nat) + u);
        assert forall|i: int| 0 <= i < 3 * n implies #[trigger] r[i] == ' ' as u8 by {
            if i < 3 * (n - 1) {
                assert(r[i] == repeat(u, (n - 1) as nat)[i]);
            } else {
                assert(r[i] == u[i - 3 * (n - 1)]);
            }
        }
    }
}

/// The start of every hexdump line: `0x`, `w >= 8` lower-case hexadecimal digits
/// reading back as the line's offset (a leading `0` only as padding up to eight digits),
/// `: `, then one cell per byte of the chunk (its two hexadecimal digits reading back as the
/// byte, and a space) and three spaces for each missing byte up to `cols`.
pub proof fn lemma_hexdump_line_head(chunk: Seq<u8>, offset: nat, cols: nat)
    requires
        chunk.len() <= cols,
    ensures
        ({
            let line = hexdump_line(chunk, offset, cols);
            let w = zero_pad(hex_digits(offset), 8).len() as int;
            &&& w >= 8
            &&& line.len() >= w + 4 + 3 * cols
            &&& line[0] == '0' as u8
            &&& line[1] == 'x' as u8
            &&& all_lower_hex(line.subrange(2, 2 + w))
            &&& hex_value(line.subrange(2, 2 + w)) == offset
            &&& (w > 8 ==> line[2] != '0' as u8)
            &&& line[2 + w] == ':' as u8
            &&& line[3 + w] == ' ' as u8
            &&& forall|k: int|
                0 <= k < chunk.len() ==> {
                    &&& is_lower_hex_char(#[trigger] line[4 + w + 3 * k])
                    &&& is_lower_hex_char(line[5 + w + 3 * k])
                    &&& hex_char_value(line[4 + w + 3 * k]) * 16 + hex_char_value(
                        line[5 + w + 3 * k],
                    ) == chunk[k]
                    &&& line[6 + w + 3 * k] == ' ' as u8
                }
            &&& forall|i: int|
                3 * chunk.len() <= i < 3 * cols ==> #[trigger] line[4 + w + i] == ' ' as u8
        }),
{
    let missing = (cols - chunk.len()) as nat;
    let digits = zero_pad(hex_digits(offset), 8);
    let cells = hex_cells(chunk);
    let blanks = repeat(seq![' ' as u8, ' ' as u8, ' ' as u8], missing);
    let line = hexdump_line(chunk, offset, cols);
    let rest = seq!['|' as u8] + chunk.map_values(|b: u8| crate::fmt::printable(b)) + repeat(
        seq![' ' as u8],
        missing,
    ) + seq!['|' as u8, '\n' as u8];
    assert(line == seq!['0' as u8, 'x' as u8] + digits + seq![':' as u8, ' ' as u8] + cells
        + blanks + rest);
    lemma_hex_digits_read_back(offset);
    let h = hex_digits(offset);
    let w = digits.len() as int;
    if h.len() < 8 {
        let z = (8 - h.len()) as nat;
        lemma_dec_value_leading_zeros(z, Seq::<u8>::empty());
        lemma_hex_value_leading_zeros(z, h);
        assert(digits == Seq::new(z, |i: int| '0' as u8) + h);
        assert forall|i: int| 0 <= i < digits.len() implies is_lower_hex_char(#[trigger] digits[i]) by {
            if i >= z {
                assert(digits[i] == h[i - z]);
            }
        }
    }
    assert(line.subrange(2, 2 + w) =~= digits);
    if chunk.len() > 0 {
        lemma_hex_cells_at(chunk, 0);
    } else {
        assert(cells.len() == 0);
    }
    lemma_repeat_three_spaces(seq![' ' as u8, ' ' as u8, ' ' as u8], missing);
    assert(3 * chunk.len() + 3 * missing == 3 * cols);
    assert forall|k: int| 0 <= k < chunk.len() implies {
        &&& is_lower_hex_char(#[trigger] line[4 + w + 3 * k])
        &&& is_lower_hex_char(line[5 + w + 3 * k])
        &&& hex_char_value(line[4 + w + 3 * k]) * 16 + hex_char_value(line[5 + w + 3 * k])
            == chunk[k]
        &&& line[6 + w + 3 * k] == ' ' as u8
    } by {
        lemma_hex_cells_at(chunk, k);
        assert(line[4 + w + 3 * k] == cells[3 * k]);
        assert(line[5 + w + 3 * k] == cells[3 * k + 1]);
        assert(line[6 + w + 3 * k] == cells[3 * k + 2]);
    }
    assert forall|i: int| 3 * chunk.len() <= i < 3 * cols implies #[trigger] line[4 + w + i]
        == ' ' as u8 by {
        assert(line[4 + w + i] == blanks[i - 3 * chunk.len()]);
    }
    assert(line[2 + w] == ':' as u8);
    assert(line[3 + w] == ' ' as u8);
}

/// A hexdump is its lines in order: from any offset inside the input, the dump continues
/// with the line for the next `cols` bytes (fewer at the end), laid out at that offset.
pub proof fn lemma_hexdump_lines(bytes: Seq<u8>, offset: nat, cols: nat)
    requires
        cols > 0,
        offset < bytes.len(),
    ensures
        ({
            let end: nat = if offset + cols < bytes.len() { offset + cols } else { bytes.len() as nat };
            hexdump_from(bytes, offset, cols) == hexdump_line(
                bytes.subrange(offset as int, end as int),
                offset,
                cols,
            ) + hexdump_from(bytes, end, cols)
        }),
{
}

/// A dump of at most one line's worth of bytes is that single line at offset 0.
pub proof fn lemma_hexdump_single_line(bytes: Seq<u8>, columns: usize)
    requires
        0 < bytes.len() <= hexdump_cols(columns),
    ensures
        hexdump_text(bytes, columns) == hexdump_line(bytes, 0, hexdump_cols(columns)),
{
    let cols = hexdump_cols(columns);
    assert(bytes.subrange(0, bytes.len() as int) =~= bytes);
    assert(hexdump_from(bytes, bytes.len() as nat, cols) =~= Seq::<u8>::empty());
    assert(hexdump_line(bytes, 0, cols) + Seq::<u8>::empty() =~= hexdump_line(bytes, 0, cols));
}

} // verus!
