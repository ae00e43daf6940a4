//! Facts about the UTF-8 encoding of texts that the functions on `&str` rest on.

use vstd::prelude::*;
use vstd::utf8::*;

verus! {

/// The encoding of a concatenation is the concatenation of the encodings.
pub proof fn lemma_encode_concat(a: Seq<char>, b: Seq<char>)
    ensures
        encode_utf8(a + b) == encode_utf8(a) + encode_utf8(b),
    decreases a.len(),
{
    if a.len() == 0 {
        assert(a + b =~= b);
        assert(encode_utf8(a) + encode_utf8(b) =~= encode_utf8(b));
    } else {
        assert((a + b).drop_first() =~= a.drop_first() + b);
        lemma_encode_concat(a.drop_first(), b);
        assert(encode_utf8(a + b) =~= encode_utf8(a) + encode_utf8(b));
    }
}

/// A text has at most as many characters as its encoding has bytes.
pub proof fn lemma_encode_len(a: Seq<char>)
    ensures
        a.len() <= encode_utf8(a).len(),
    decreases a.len(),
{
    if a.len() > 0 {
        char_is_scalar(a[0]);
        lemma_encode_len(a.drop_first());
    }
}

/// Two texts with the same encoding are the same text.
pub proof fn lemma_encode_injective(a: Seq<char>, b: Seq<char>)
    requires
        encode_utf8(a) == encode_utf8(b),
    ensures
        a == b,
{
    encode_utf8_decode_utf8(a);
    encode_utf8_decode_utf8(b);
}

/// A text whose encoding is the encoding of `a` and behind it that of `b` is `a` and behind
/// it `b`.
pub proof fn lemma_decode_parts(s: Seq<char>, a: Seq<char>, b: Seq<char>)
    requires
        encode_utf8(s) == encode_utf8(a) + encode_utf8(b),
    ensures
        s == a + b,
{
    lemma_encode_concat(a, b);
    lemma_encode_injective(s, a + b);
}

/// An ASCII byte of a valid encoding begins a character and ends it.
pub proof fn lemma_ascii_byte_boundaries(bytes: Seq<u8>, i: int)
    requires
        valid_utf8(bytes),
        0 <= i < bytes.len(),
        bytes[i] <= 0x7f,
    ensures
        is_char_boundary(bytes, i),
        is_char_boundary(bytes, i + 1),
{
    is_char_boundary_iff_not_is_continuation_byte(bytes, i);
    valid_utf8_split(bytes, i);
    let tail = bytes.subrange(i, bytes.len() as int);
    assert(tail[0] == bytes[i]);
    assert(length_of_first_scalar(tail) == 1);
    let rest = pop_first_scalar(tail);
    assert(valid_utf8(rest));
    if i + 1 == bytes.len() {
        is_char_boundary_start_end_of_seq(bytes);
    } else {
        assert(rest =~= bytes.subrange(i + 1, bytes.len() as int));
        assert(rest[0] == bytes[i + 1]);
        assert(valid_first_scalar(rest));
        is_char_boundary_iff_not_is_continuation_byte(bytes, i + 1);
    }
}

/// The encoding of a text does not begin in the middle of a character.
pub proof fn lemma_encoding_begins_character(text: Seq<char>)
    requires
        text.len() > 0,
    ensures
        encode_utf8(text).len() > 0,
        !is_continuation_byte(encode_utf8(text)[0]),
{
    encode_utf8_first_scalar(text);
}

/// Where a valid encoding begins with the encoding of `text`, a character ends where that
/// of `text` ends.
pub proof fn lemma_encoded_prefix_boundary(bytes: Seq<u8>, text: Seq<char>)
    requires
        valid_utf8(bytes),
        encode_utf8(text).len() <= bytes.len(),
        bytes.subrange(0, encode_utf8(text).len() as int) == encode_utf8(text),
    ensures
        is_char_boundary(bytes, encode_utf8(text).len() as int),
    decreases text.len(),
{
    let prefix = encode_utf8(text);
    if text.len() > 0 {
        encode_utf8_first_scalar(text);
        char_is_scalar(text[0]);
        let first = encode_scalar(text[0] as u32);
        let others = encode_utf8(text.drop_first());
        assert(prefix =~= first + others);
        assert(bytes[0] == prefix[0]) by {
            assert(bytes.subrange(0, prefix.len() as int)[0] == bytes[0]);
        }
        let width = length_of_first_scalar(bytes);
        assert(width == first.len());
        let behind = pop_first_scalar(bytes);
        assert(behind.subrange(0, others.len() as int) =~= others) by {
            assert forall|k: int| 0 <= k < others.len() implies behind[k] == others[k] by {
                assert(bytes.subrange(0, prefix.len() as int)[width + k] == bytes[width + k]);
            }
        }
        lemma_encoded_prefix_boundary(behind, text.drop_first());
    }
}

} // verus!
