//! Text on the wire: UTF-8 without line breaks inside a field.

use vstd::prelude::*;
use vstd::utf8::*;

verus! {

/// The byte that ends every line of a frame.
pub const NEWLINE: u8 = 10;

/// True when `t` holds no line break, so that it can travel as one line.
pub open spec fn single_line(t: Seq<char>) -> bool {
    forall|i: int| 0 <= i < t.len() ==> #[trigger] t[i] != '\n'
}

/// True when no byte of `b` is the line terminator.
pub open spec fn newline_free(b: Seq<u8>) -> bool {
    forall|i: int| 0 <= i < b.len() ==> #[trigger] b[i] != NEWLINE
}

/// The UTF-8 bytes of a scalar other than the line break hold no line
/// terminator: a one-byte encoding is the scalar itself, and every byte of a
/// longer one has its high bit set.
proof fn lemma_scalar_newline_free(c: u32)
    requires
        is_scalar(c),
        c != 10,
    ensures
        newline_free(encode_scalar(c)),
{
    assert(c <= 0x7f ==> (c & 0x7f) as u8 == c) by (bit_vector);
    assert(0xC0u8 | ((c >> 6) & 0x1F) as u8 >= 0x80) by (bit_vector);
    assert(0xE0u8 | ((c >> 12) & 0x0F) as u8 >= 0x80) by (bit_vector);
    assert(0xF0u8 | ((c >> 18) & 0x7) as u8 >= 0x80) by (bit_vector);
    assert(0x80u8 | (c & 0x3F) as u8 >= 0x80) by (bit_vector);
    assert(0x80u8 | ((c >> 6) & 0x3F) as u8 >= 0x80) by (bit_vector);
    assert(0x80u8 | ((c >> 12) & 0x3F) as u8 >= 0x80) by (bit_vector);
}

/// A text without line breaks encodes to bytes without line terminators.
pub proof fn lemma_single_line_bytes(t: Seq<char>)
    requires
        single_line(t),
    ensures
        newline_free(encode_utf8(t)),
    decreases t.len(),
{
    if t.len() > 0 {
        let head = encode_scalar(t[0] as u32);
        let tail = encode_utf8(t.drop_first());
        char_is_scalar(t[0]);
        assert(t[0] as u32 != 10) by {
            if t[0] as u32 == 10 {
                char_u32_cast(t[0], 10);
                char_u32_cast('\n', 10);
            }
        }
        lemma_scalar_newline_free(t[0] as u32);
        assert forall|i: int| 0 <= i < t.drop_first().len() implies #[trigger] t.drop_first()[i]
            != '\n' by {
            assert(t.drop_first()[i] == t[i + 1]);
        }
        lemma_single_line_bytes(t.drop_first());
        assert forall|i: int| 0 <= i < (head + tail).len() implies #[trigger] (head + tail)[i]
            != NEWLINE by {
            if i < head.len() {
                assert((head + tail)[i] == head[i]);
            } else {
                assert((head + tail)[i] == tail[i - head.len()]);
            }
        }
    }
}

/// `String::from_utf8` of std: the bytes become a string exactly when they
/// are well-formed UTF-8, and the string then holds the characters that they
/// encode.
#[verifier::external_body]
pub(crate) fn text_from_utf8(bytes: Vec<u8>) -> (r: Option<String>)
    ensures
        r is Some <==> valid_utf8(bytes@),
        r matches Some(s) ==> s@ == decode_utf8(bytes@),
{
    String::from_utf8(bytes).ok()
}

} // verus!
