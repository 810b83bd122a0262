use vstd::prelude::*;
use vstd::utf8::*;

verus! {

/// The UTF-8 encoding of a concatenation is the concatenation of the encodings.
pub proof fn lemma_encode_utf8_concat(a: Seq<char>, b: Seq<char>)
    ensures
        encode_utf8(a + b) == encode_utf8(a) + encode_utf8(b),
    decreases a.len(),
{
    if a.len() == 0 {
        assert(a + b =~= b);
        assert(encode_utf8(a) + encode_utf8(b) =~= encode_utf8(b));
    } else {
        assert((a + b)[0] == a[0]);
        assert((a + b).drop_first() =~= a.drop_first() + b);
        lemma_encode_utf8_concat(a.drop_first(), b);
        assert(encode_utf8(a + b) =~= encode_scalar(a[0] as u32) + (encode_utf8(a.drop_first())
            + encode_utf8(b)));
        assert(encode_utf8(a) + encode_utf8(b) =~= encode_scalar(a[0] as u32) + (encode_utf8(
            a.drop_first(),
        ) + encode_utf8(b)));
    }
}

/// Only the empty text has an empty UTF-8 encoding.
pub proof fn lemma_encode_utf8_empty(a: Seq<char>)
    ensures
        encode_utf8(a).len() == 0 <==> a.len() == 0,
{
    if a.len() > 0 {
        let c = a[0] as u32;
        assert(encode_scalar(c).len() > 0);
        assert(encode_utf8(a) == encode_scalar(c) + encode_utf8(a.drop_first()));
    }
}

/// Calls `core::str::from_utf8`. Its documentation promises `Ok` exactly when `bytes` are
/// valid UTF-8, and then a string slice over those very bytes, whose characters are
/// therefore their UTF-8 decoding.
#[verifier::external_body]
pub(crate) fn str_from_utf8(bytes: &[u8]) -> (r: Option<&str>)
    ensures
        r is Some <==> valid_utf8(bytes@),
        r matches Some(s) ==> s@ == decode_utf8(bytes@),
{
    core::str::from_utf8(bytes).ok()
}

/// The characters spelled by a sequence of ASCII bytes.
pub open spec fn ascii_text(bytes: Seq<u8>) -> Seq<char> {
    bytes.map_values(|b: u8| b as char)
}

/// `true` when every byte is below 128.
pub open spec fn is_ascii_bytes(bytes: Seq<u8>) -> bool {
    forall|i: int| 0 <= i < bytes.len() ==> #[trigger] bytes[i] < 128
}

/// ASCII bytes are the UTF-8 encoding of the characters they spell.
pub proof fn lemma_ascii_encoding(bytes: Seq<u8>)
    requires
        is_ascii_bytes(bytes),
    ensures
        encode_utf8(ascii_text(bytes)) == bytes,
        decode_utf8(bytes) == ascii_text(bytes),
{
    let t = ascii_text(bytes);
    assert(is_ascii_chars(t)) by {
        assert forall|i: int| 0 <= i < t.len() implies '\0' <= #[trigger] t[i] <= '\u{7f}' by {
            assert(bytes[i] < 128);
        }
    }
    is_ascii_chars_encode_utf8(t);
    assert forall|i: int| 0 <= i < bytes.len() implies encode_utf8(t)[i] == bytes[i] by {
        assert(t[i] as u8 == encode_utf8(t)[i]);
        assert(bytes[i] < 128);
        assert((bytes[i] as char) as u8 == bytes[i]);
    }
    assert(encode_utf8(t) =~= bytes);
    encode_utf8_decode_utf8(t);
}

/// A `String` holding the text spelled by the ASCII bytes `bytes`.
pub fn string_from_ascii(bytes: &[u8]) -> (r: String)
    requires
        is_ascii_bytes(bytes@),
    ensures
        r@ == ascii_text(bytes@),
{
    proof {
        lemma_ascii_encoding(bytes@);
        encode_utf8_valid_utf8(ascii_text(bytes@));
    }
    match str_from_utf8(bytes) {
        Some(s) => s.to_owned(),
        None => String::new(),
    }
}

} // verus!
