//! Facts about the UTF-8 encoding used by the record format.

use vstd::prelude::*;
use vstd::utf8::{
    encode_scalar, encode_utf8, has_width_1_encoding, has_width_2_encoding, has_width_3_encoding,
    char_is_scalar, char_u32_cast,
};

verus! {

/// The encoding of a concatenation is the concatenation of the encodings.
pub proof fn lemma_encode_concat(a: Seq<char>, b: Seq<char>)
    ensures
        encode_utf8(a + b) == encode_utf8(a) + encode_utf8(b),
    decreases a.len(),
{
    if a.len() == 0 {
        assert(a + b =~= b);
        assert(encode_utf8(a) + encode_utf8(b) =~= encode_utf8(b));
    } else {
        lemma_encode_concat(a.drop_first(), b);
        assert((a + b).drop_first() =~= a.drop_first() + b);
        assert((a + b)[0] == a[0]);
        assert(encode_utf8(a + b) =~= encode_scalar(a[0] as u32) + encode_utf8(a.drop_first() + b));
    }
}

proof fn lemma_width_1_byte(v: u32)
    by (bit_vector)
    requires
        v <= 0x7f,
    ensures
        ((v & 0x7f) as u8) as u32 == v,
{
}

proof fn lemma_multi_byte_high(v: u32)
    by (bit_vector)
    requires
        0x80 <= v <= 0x10ffff,
    ensures
        (0xC0 | ((v >> 6) & 0x1F) as u8) >= 0x80,
        (0xE0 | ((v >> 12) & 0x0F) as u8) >= 0x80,
        (0xF0 | ((v >> 18) & 0x7) as u8) >= 0x80,
        (0x80 | (v & 0x3F) as u8) >= 0x80,
        (0x80 | ((v >> 6) & 0x3F) as u8) >= 0x80,
        (0x80 | ((v >> 12) & 0x3F) as u8) >= 0x80,
{
}

/// A character below 0x80 is encoded as the single byte of the same value.
pub proof fn lemma_encode_ascii(c: char)
    requires
        (c as u32) < 0x80,
    ensures
        encode_utf8(seq![c]) == seq![(c as u32) as u8],
{
    lemma_width_1_byte(c as u32);
    assert(seq![c].drop_first() =~= Seq::<char>::empty());
    assert(encode_utf8(seq![c]) =~= encode_scalar(c as u32) + encode_utf8(Seq::<char>::empty()));
}

/// Every byte of the encoding below 0x80 is a character of the text.
pub proof fn lemma_encode_ascii_byte(s: Seq<char>, k: int)
    requires
        0 <= k < encode_utf8(s).len(),
        encode_utf8(s)[k] < 0x80,
    ensures
        exists|m: int| 0 <= m < s.len() && (s[m] as u32) == encode_utf8(s)[k] as u32,
    decreases s.len(),
{
    if s.len() > 0 {
        let v = s[0] as u32;
        char_is_scalar(s[0]);
        let first = encode_scalar(v);
        assert(encode_utf8(s) == first + encode_utf8(s.drop_first()));
        if k < first.len() {
            if has_width_1_encoding(v) {
                lemma_width_1_byte(v);
                assert(encode_utf8(s)[k] == first[k]);
            } else {
                lemma_multi_byte_high(v);
                assert(encode_utf8(s)[k] == first[k]);
                if has_width_2_encoding(v) {
                } else if has_width_3_encoding(v) {
                } else {
                }
                assert(first[k] >= 0x80);
            }
        } else {
            assert(encode_utf8(s)[k] == encode_utf8(s.drop_first())[k - first.len()]);
            lemma_encode_ascii_byte(s.drop_first(), k - first.len());
            let m = choose|m: int|
                0 <= m < s.drop_first().len() && (s.drop_first()[m] as u32)
                    == encode_utf8(s.drop_first())[k - first.len()] as u32;
            assert(s[m + 1] == s.drop_first()[m]);
        }
    }
}

/// A text without the character `c` (below 0x80) has no byte `c` in its encoding.
pub proof fn lemma_encode_lacks_byte(s: Seq<char>, c: char)
    requires
        (c as u32) < 0x80,
        !s.contains(c),
    ensures
        forall|k: int| 0 <= k < encode_utf8(s).len() ==> encode_utf8(s)[k] != (c as u32) as u8,
{
    assert forall|k: int| 0 <= k < encode_utf8(s).len() implies encode_utf8(s)[k] != (c as u32) as u8 by {
        if encode_utf8(s)[k] == (c as u32) as u8 {
            lemma_encode_ascii_byte(s, k);
            let m = choose|m: int| 0 <= m < s.len() && (s[m] as u32) == encode_utf8(s)[k] as u32;
            char_u32_cast(s[m], s[m] as u32);
            char_u32_cast(c, c as u32);
            assert(s[m] == c);
        }
    }
}

} // verus!
