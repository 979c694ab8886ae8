//! String helpers shared by the other modules.

use vstd::prelude::*;
use vstd::utf8::encode_utf8;
use crate::utf8_facts::{lemma_encode_ascii, lemma_encode_concat};
use crate::bytes_order::{compare_bytes, Order};
use crate::secrets::lemma_encode_injective;

verus! {

/// Appends one character to a string (`String::push`).
#[verifier::external_body]
pub(crate) fn push_char(s: &mut String, c: char)
    ensures
        final(s)@ == old(s)@.push(c),
{
    s.push(c);
}

/// The characters of a string slice, in order.
pub fn chars_of(s: &str) -> (r: Vec<char>)
    ensures
        r@ == s@,
{
    let mut out: Vec<char> = Vec::new();
    for c in it: s.chars()
        invariant
            out@ == it.seq().take(it.index() as int),
            it.seq() == s@,
    {
        out.push(c);
    }
    out
}

/// Appends `t`; the encoding grows by the encoding of `t`.
pub fn push_text(s: &mut String, t: &str)
    ensures
        final(s)@ == old(s)@ + t@,
        encode_utf8(final(s)@) == encode_utf8(old(s)@) + encode_utf8(t@),
{
    proof {
        lemma_encode_concat(s@, t@);
    }
    s.append(t);
}

/// Appends an ASCII character; the encoding grows by its one byte.
pub fn push_ascii(s: &mut String, c: char)
    requires
        (c as u32) < 0x80,
    ensures
        final(s)@ == old(s)@.push(c),
        encode_utf8(final(s)@) == encode_utf8(old(s)@).push((c as u32) as u8),
{
    proof {
        lemma_encode_concat(s@, seq![c]);
        lemma_encode_ascii(c);
        assert(s@.push(c) =~= s@ + seq![c]);
        assert(encode_utf8(s@).push((c as u32) as u8) =~= encode_utf8(s@) + seq![(c as u32) as u8]);
    }
    push_char(s, c);
}

/// A string made of the characters `cs[from..to]`.
pub fn string_from(cs: &Vec<char>, from: usize, to: usize) -> (s: String)
    requires
        from <= to <= cs@.len(),
    ensures
        s@ == cs@.subrange(from as int, to as int),
{
    let mut s = String::new();
    let mut i = from;
    while i < to
        invariant
            from <= i <= to,
            to <= cs@.len(),
            s@ == cs@.subrange(from as int, i as int),
        decreases to - i,
    {
        push_char(&mut s, cs[i]);
        assert(cs@.subrange(from as int, i + 1) =~= cs@.subrange(from as int, i as int).push(cs@[i as int]));
        i = i + 1;
    }
    s
}

/// Whether two strings are equal.
pub fn same_text(a: &str, b: &str) -> (r: bool)
    ensures
        r == (a@ == b@),
{
    proof {
        lemma_encode_injective(a@, b@);
    }
    match compare_bytes(a.as_bytes(), b.as_bytes()) {
        Order::Equal => true,
        _ => false,
    }
}

} // verus!
