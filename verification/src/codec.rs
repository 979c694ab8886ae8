//! The text that holds every secret in one keyring entry.
//!
//! Each record is `NAME <byte length>\n<value>\n`. The length prefix lets a
//! value hold anything at all, newlines included; a name may hold anything but
//! a newline, since the header ends at the first one and its length follows
//! the last space.

use vstd::prelude::*;
use vstd::utf8::{decode_utf8, encode_utf8, is_char_boundary};
use vstd::utf8::{
    encode_utf8_decode_utf8, encode_utf8_valid_utf8, is_char_boundary_iff_not_is_continuation_byte,
    is_char_boundary_start_end_of_seq, valid_utf8, valid_utf8_split, pop_first_scalar,
    length_of_first_scalar, partial_valid_utf8_extend_ascii_block, valid_utf8_concat,
};
use crate::secrets::lemma_map_of_index;
use crate::bytes_order::bytes_lt;
use crate::utf8_facts::lemma_encode_lacks_byte;
use vstd::string::StringSliceAdditionalSpecFns;
use crate::secret::Secret;
use crate::secrets::{map_of, Listing, Secrets, sorted_by_name};
use crate::text::{push_ascii, push_text};

verus! {

/// ASCII newline.
pub open spec fn newline() -> u8 {
    10
}

/// ASCII space.
pub open spec fn space() -> u8 {
    32
}

/// The decimal digits of `n`, most significant first, without leading zeros.
pub open spec fn decimal(n: nat) -> Seq<u8>
    decreases n,
{
    if n < 10 {
        seq![(48 + n) as u8]
    } else {
        decimal(n / 10).push((48 + n % 10) as u8)
    }
}

/// The value of a string of decimal digits.
pub open spec fn digits_value(d: Seq<u8>) -> int
    decreases d.len(),
{
    if d.len() == 0 {
        0
    } else {
        digits_value(d.drop_last()) * 10 + (d.last() - 48)
    }
}

/// Every byte is an ASCII digit.
pub open spec fn all_digits(d: Seq<u8>) -> bool {
    forall|k: int| 0 <= k < d.len() ==> 48 <= #[trigger] d[k] <= 57
}

/// What `usize::from_str` makes of `s`: an optional `+`, then one or more
/// decimal digits whose value fits in a `usize`.
pub open spec fn parse_length(s: Seq<u8>) -> Option<usize> {
    let d = if s.len() > 0 && s[0] == 43 {
        s.drop_first()
    } else {
        s
    };
    if d.len() == 0 || !all_digits(d) || digits_value(d) > usize::MAX {
        None
    } else {
        Some(digits_value(d) as usize)
    }
}

/// One record: `NAME <byte length of value>\n<value>\n`, in bytes.
pub open spec fn record(name: Seq<char>, value: Seq<char>) -> Seq<u8> {
    encode_utf8(name) + seq![space()] + decimal(encode_utf8(value).len()) + seq![newline()]
        + encode_utf8(value) + seq![newline()]
}

/// The records of a listing, in order.
pub open spec fn spec_encode(l: Listing) -> Seq<u8>
    decreases l.len(),
{
    if l.len() == 0 {
        seq![]
    } else {
        spec_encode(l.drop_last()) + record(l.last().0, l.last().1)
    }
}

/// Why a keyring text is not a well-formed sequence of records, with the
/// record header or name at fault.
#[derive(Debug, PartialEq, Eq)]
pub enum DecodeError {
    /// A record header has no newline after it.
    MissingHeaderEnd,
    /// This record header has no space between name and length.
    MalformedHeader(String),
    /// The length in this record header is not a decimal number that fits
    /// a `usize`.
    MalformedLength(String),
    /// Fewer bytes follow the header of the record with this name than its
    /// length says, or the length ends inside a character.
    Truncated(String),
    /// The value of the record with this name is not followed by a newline.
    Unterminated(String),
}

/// A `DecodeError` as text: which fault, and at which header or name.
pub enum DecodeFault {
    MissingHeaderEnd,
    MalformedHeader(Seq<char>),
    MalformedLength(Seq<char>),
    Truncated(Seq<char>),
    Unterminated(Seq<char>),
}

impl View for DecodeError {
    type V = DecodeFault;

    open spec fn view(&self) -> DecodeFault {
        match self {
            DecodeError::MissingHeaderEnd => DecodeFault::MissingHeaderEnd,
            DecodeError::MalformedHeader(h) => DecodeFault::MalformedHeader(h@),
            DecodeError::MalformedLength(h) => DecodeFault::MalformedLength(h@),
            DecodeError::Truncated(n) => DecodeFault::Truncated(n@),
            DecodeError::Unterminated(n) => DecodeFault::Unterminated(n@),
        }
    }
}

/// `i` is the first position of byte `b` in `s`.
pub open spec fn is_first(s: Seq<u8>, b: u8, i: int) -> bool {
    &&& 0 <= i < s.len()
    &&& s[i] == b
    &&& forall|k: int| 0 <= k < i ==> s[k] != b
}

/// `i` is the last position of byte `b` in `s`.
pub open spec fn is_last(s: Seq<u8>, b: u8, i: int) -> bool {
    &&& 0 <= i < s.len()
    &&& s[i] == b
    &&& forall|k: int| i < k < s.len() ==> s[k] != b
}

/// Reads the records of `rest` into `acc`, a later record of a name
/// replacing an earlier one.
pub open spec fn decode_into(acc: Map<Seq<char>, Seq<char>>, rest: Seq<u8>) -> Result<
    Map<Seq<char>, Seq<char>>,
    DecodeFault,
>
    decreases rest.len(),
{
    if rest.len() == 0 {
        Ok(acc)
    } else if !(exists|i: int| is_first(rest, newline(), i)) {
        Err(DecodeFault::MissingHeaderEnd)
    } else {
        let i = choose|i: int| is_first(rest, newline(), i);
        let header = rest.subrange(0, i);
        let body = rest.subrange(i + 1, rest.len() as int);
        if !(exists|j: int| is_last(header, space(), j)) {
            Err(DecodeFault::MalformedHeader(decode_utf8(header)))
        } else {
            let j = choose|j: int| is_last(header, space(), j);
            let name = header.subrange(0, j);
            match parse_length(header.subrange(j + 1, header.len() as int)) {
                None => Err(DecodeFault::MalformedLength(decode_utf8(header))),
                Some(n) => {
                    if n > body.len() || !is_char_boundary(body, n as int) {
                        Err(DecodeFault::Truncated(decode_utf8(name)))
                    } else if n == body.len() || body[n as int] != newline() {
                        Err(DecodeFault::Unterminated(decode_utf8(name)))
                    } else {
                        decode_into(
                            acc.insert(decode_utf8(name), decode_utf8(body.subrange(0, n as int))),
                            body.subrange(n + 1, body.len() as int),
                        )
                    }
                },
            }
        }
    }
}

/// The secrets that a keyring text holds.
pub open spec fn spec_decode(blob: Seq<u8>) -> Result<Map<Seq<char>, Seq<char>>, DecodeFault> {
    decode_into(Map::empty(), blob)
}

/// `decimal(n)` is a non-empty string of digits whose value is `n`.
pub proof fn lemma_decimal(n: nat)
    ensures
        decimal(n).len() >= 1,
        all_digits(decimal(n)),
        digits_value(decimal(n)) == n,
    decreases n,
{
    if n < 10 {
        assert(decimal(n).drop_last() =~= Seq::<u8>::empty());
        assert(((48 + n) as u8) as int == 48 + n);
        let d = decimal(n);
        assert(digits_value(d) == digits_value(d.drop_last()) * 10 + (d.last() - 48));
    } else {
        lemma_decimal(n / 10);
        let d = decimal(n);
        assert(d.drop_last() =~= decimal(n / 10));
        assert(d.last() == (48 + n % 10) as u8);
        assert(((48 + n % 10) as u8) as int == 48 + n % 10);
        assert((n / 10) * 10 + n % 10 == n);
        assert(digits_value(d) == digits_value(d.drop_last()) * 10 + (d.last() - 48));
        assert(digits_value(d.drop_last()) == n / 10);
        assert forall|k: int| 0 <= k < d.len() implies 48 <= #[trigger] d[k] <= 57 by {
            if k < d.len() - 1 {
                assert(d[k] == decimal(n / 10)[k]);
            }
        }
    }
}

/// The digits of a number parse back to it.
pub proof fn lemma_parse_decimal(n: usize)
    ensures
        parse_length(decimal(n as nat)) == Some(n),
{
    lemma_decimal(n as nat);
    assert(decimal(n as nat)[0] != 43);
}

/// Position of the first byte `b` in `s`.
fn first_index(s: &[u8], b: u8) -> (r: Option<usize>)
    ensures
        match r {
            Some(i) => is_first(s@, b, i as int),
            None => !(exists|i: int| is_first(s@, b, i)),
        },
{
    let mut i: usize = 0;
    while i < s.len()
        invariant
            i <= s@.len(),
            forall|k: int| 0 <= k < i ==> s@[k] != b,
        decreases s@.len() - i,
    {
        if s[i] == b {
            return Some(i);
        }
        i = i + 1;
    }
    None
}

/// Position of the last byte `b` in `s`.
fn last_index(s: &[u8], b: u8) -> (r: Option<usize>)
    ensures
        match r {
            Some(i) => is_last(s@, b, i as int),
            None => !(exists|i: int| is_last(s@, b, i)),
        },
{
    let mut i: usize = s.len();
    while i > 0
        invariant
            i <= s@.len(),
            forall|k: int| i <= k < s@.len() ==> s@[k] != b,
        decreases i,
    {
        if s[i - 1] == b {
            return Some(i - 1);
        }
        i = i - 1;
    }
    None
}

/// Reads a record length the way `usize::from_str` does.
pub fn parse_length_bytes(s: &[u8]) -> (r: Option<usize>)
    ensures
        r == parse_length(s@),
{
    let start: usize = if s.len() > 0 && s[0] == 43 { 1 } else { 0 };
    let ghost d = if s@.len() > 0 && s@[0] == 43 { s@.drop_first() } else { s@ };
    assert(d =~= s@.subrange(start as int, s@.len() as int));
    if start == s.len() {
        return None;
    }
    let mut value: usize = 0;
    let mut overflow = false;
    let mut i: usize = start;
    while i < s.len()
        invariant
            start <= i <= s@.len(),
            start < s@.len(),
            d == s@.subrange(start as int, s@.len() as int),
            d == (if s@.len() > 0 && s@[0] == 43 { s@.drop_first() } else { s@ }),
            forall|k: int| start <= k < i ==> 48 <= #[trigger] s@[k] <= 57,
            !overflow ==> value == digits_value(s@.subrange(start as int, i as int)),
            overflow ==> digits_value(s@.subrange(start as int, i as int)) > usize::MAX,
            digits_value(s@.subrange(start as int, i as int)) >= 0,
        decreases s@.len() - i,
    {
        let c = s[i];
        if c < 48 || c > 57 {
            assert(!all_digits(d)) by {
                assert(d[i - start] == c);
            }
            return None;
        }
        let ghost prefix = s@.subrange(start as int, i as int);
        let ghost next = s@.subrange(start as int, i + 1);
        assert(next.drop_last() =~= prefix);
        assert(next.last() == c);
        if !overflow {
            if value > (usize::MAX - (c - 48) as usize) / 10 {
                overflow = true;
            } else {
                value = value * 10 + (c - 48) as usize;
            }
        }
        i = i + 1;
    }
    assert(s@.subrange(start as int, i as int) =~= d);
    if overflow {
        None
    } else {
        Some(value)
    }
}

/// Appends the decimal digits of `n`.
fn push_decimal(out: &mut String, n: usize)
    ensures
        encode_utf8(final(out)@) == encode_utf8(old(out)@) + decimal(n as nat),
{
    let ghost start = encode_utf8(out@);
    let mut m: usize = n;
    let mut rev: Vec<u8> = Vec::new();
    while m >= 10
        invariant
            decimal(n as nat) == decimal(m as nat) + Seq::new(
                rev@.len(),
                |k: int| rev@[rev@.len() - 1 - k],
            ),
            forall|k: int| 0 <= k < rev@.len() ==> 48 <= #[trigger] rev@[k] <= 57,
        decreases m,
    {
        let d: u8 = (m % 10) as u8 + 48;
        let ghost before = Seq::new(rev@.len(), |k: int| rev@[rev@.len() - 1 - k]);
        rev.push(d);
        let ghost after = Seq::new(rev@.len(), |k: int| rev@[rev@.len() - 1 - k]);
        assert(after =~= seq![d] + before);
        assert(decimal(m as nat) == decimal((m / 10) as nat).push(d));
        assert(decimal((m / 10) as nat).push(d) + before =~= decimal((m / 10) as nat) + after);
        m = m / 10;
    }
    let d: u8 = m as u8 + 48;
    let ghost before = Seq::new(rev@.len(), |k: int| rev@[rev@.len() - 1 - k]);
    rev.push(d);
    let ghost digits = Seq::new(rev@.len(), |k: int| rev@[rev@.len() - 1 - k]);
    assert(digits =~= seq![d] + before);
    assert(decimal(m as nat) =~= seq![d]);
    assert(decimal(n as nat) == digits);
    let len = rev.len();
    let mut k: usize = len;
    while k > 0
        invariant
            k <= len,
            len == rev@.len(),
            digits == Seq::new(rev@.len(), |k: int| rev@[rev@.len() - 1 - k]),
            forall|k: int| 0 <= k < rev@.len() ==> 48 <= #[trigger] rev@[k] <= 57,
            encode_utf8(out@) == start + digits.subrange(0, len - k),
        decreases k,
    {
        k = k - 1;
        let b = rev[k];
        let c = b as char;
        assert((c as u32) as u8 == b);
        push_ascii(out, c);
        assert(digits.subrange(0, len - k) =~= digits.subrange(0, len - k - 1).push(b));
    }
    assert(digits.subrange(0, len as int) =~= digits);
}

/// The keyring text that holds `secrets`: their records, sorted by name.
pub fn encode(secrets: &Secrets) -> (blob: String)
    ensures
        sorted_by_name(secrets.listing()),
        encode_utf8(blob@) == spec_encode(secrets.listing()),
{
    let n = secrets.len();
    let ghost l = secrets.listing();
    let mut out = String::new();
    let mut i: usize = 0;
    assert(l.take(0) =~= Seq::<(Seq<char>, Seq<char>)>::empty());
    assert(encode_utf8(out@) =~= Seq::<u8>::empty());
    while i < n
        invariant
            n == l.len(),
            i <= n,
            l == secrets.listing(),
            encode_utf8(out@) == spec_encode(l.take(i as int)),
        decreases n - i,
    {
        let (name, value) = secrets.entry(i);
        let ghost before = encode_utf8(out@);
        let len = value.as_bytes().len();
        assert(len == encode_utf8(value@).len());
        assert((' ' as u32) as u8 == space());
        assert(('\n' as u32) as u8 == newline());
        push_text(&mut out, name);
        push_ascii(&mut out, ' ');
        push_decimal(&mut out, len);
        push_ascii(&mut out, '\n');
        push_text(&mut out, value);
        push_ascii(&mut out, '\n');
        proof {
            let t = l.take(i + 1);
            assert(t.drop_last() =~= l.take(i as int));
            assert(t.last() == l[i as int]);
            assert(encode_utf8(out@) =~= before + record(name@, value@));
        }
        i = i + 1;
    }
    assert(l.take(n as int) =~= l);
    out
}

/// Around an ASCII byte of valid UTF-8 lie character boundaries.
proof fn lemma_ascii_boundaries(bytes: Seq<u8>, i: int)
    requires
        valid_utf8(bytes),
        0 <= i < bytes.len(),
        bytes[i] < 0x80,
    ensures
        is_char_boundary(bytes, i),
        is_char_boundary(bytes, i + 1),
{
    is_char_boundary_iff_not_is_continuation_byte(bytes, i);
    if i + 1 == bytes.len() {
        is_char_boundary_start_end_of_seq(bytes);
    } else {
        valid_utf8_split(bytes, i);
        let s = bytes.subrange(i, bytes.len() as int);
        assert(valid_utf8(s));
        assert(length_of_first_scalar(s) == 1);
        let t = pop_first_scalar(s);
        assert(valid_utf8(t));
        assert(t[0] == bytes[i + 1]);
        is_char_boundary_iff_not_is_continuation_byte(bytes, i + 1);
    }
}

/// Reads the secrets out of a keyring text.
pub fn decode(blob: &str) -> (r: Result<Secrets, DecodeError>)
    ensures
        match spec_decode(blob.spec_bytes()) {
            Ok(m) => r matches Ok(s) && s@ == m,
            Err(e) => r matches Err(e2) && e2@ == e,
        },
{
    broadcast use encode_utf8_valid_utf8;

    let mut secrets = Secrets::new();
    let mut rest: &str = blob;
    while rest.as_bytes().len() > 0
        invariant
            decode_into(secrets@, rest.spec_bytes()) == spec_decode(blob.spec_bytes()),
        decreases rest.spec_bytes().len(),
    {
        let ghost whole = rest.spec_bytes();
        proof {
            encode_utf8_valid_utf8(rest@);
        }
        let bytes = rest.as_bytes();
        let i = match first_index(bytes, 10) {
            Some(i) => i,
            None => {
                secrets.wipe();
                return Err(DecodeError::MissingHeaderEnd);
            },
        };
        proof {
            lemma_ascii_boundaries(whole, i as int);
            let c = choose|c: int| is_first(whole, newline(), c);
            assert(c == i) by {
                if c < i {
                    assert(whole[c] == newline());
                } else if c > i {
                    assert(whole[i as int] == newline());
                }
            }
        }
        assert(i < bytes.len());
        let (header, _) = rest.split_at(i);
        let (_, body) = rest.split_at(i + 1);
        let hbytes = header.as_bytes();
        let ghost hb = header.spec_bytes();
        proof {
            encode_utf8_valid_utf8(header@);
        }
        let j = match last_index(hbytes, 32) {
            Some(j) => j,
            None => {
                proof {
                    encode_utf8_decode_utf8(header@);
                }
                secrets.wipe();
                return Err(DecodeError::MalformedHeader(header.to_owned()));
            },
        };
        proof {
            lemma_ascii_boundaries(hb, j as int);
            let c = choose|c: int| is_last(hb, space(), c);
            assert(c == j) by {
                if c < j {
                    assert(hb[j as int] == space());
                } else if c > j {
                    assert(hb[c] == space());
                }
            }
        }
        let (name, _) = header.split_at(j);
        let (_, digits) = header.split_at(j + 1);
        let n = match parse_length_bytes(digits.as_bytes()) {
            Some(n) => n,
            None => {
                proof {
                    encode_utf8_decode_utf8(header@);
                }
                secrets.wipe();
                return Err(DecodeError::MalformedLength(header.to_owned()));
            },
        };
        let ghost bb = body.spec_bytes();
        proof {
            encode_utf8_valid_utf8(body@);
            encode_utf8_decode_utf8(name@);
        }
        if !body.is_char_boundary(n) {
            secrets.wipe();
            return Err(DecodeError::Truncated(name.to_owned()));
        }
        let body_bytes = body.as_bytes();
        if n >= body_bytes.len() || body_bytes[n] != 10 {
            secrets.wipe();
            return Err(DecodeError::Unterminated(name.to_owned()));
        }
        proof {
            lemma_ascii_boundaries(bb, n as int);
        }
        let (value, _) = body.split_at(n);
        let (_, next) = body.split_at(n + 1);
        proof {
            encode_utf8_decode_utf8(value@);
        }
        secrets.insert(name.to_owned(), Secret::new(value.to_owned()));
        rest = next;
    }
    assert(rest.spec_bytes().len() == 0);
    assert(decode_into(secrets@, rest.spec_bytes()) == Ok::<Map<Seq<char>, Seq<char>>, DecodeFault>(secrets@));
    Ok(secrets)
}

/// Bytes below 0x80 are valid UTF-8.
proof fn lemma_ascii_valid(s: Seq<u8>)
    requires
        forall|k: int| 0 <= k < s.len() ==> #[trigger] s[k] < 0x80,
    ensures
        valid_utf8(s),
{
    assert(s.subrange(0, 0) =~= Seq::<u8>::empty());
    partial_valid_utf8_extend_ascii_block(s, 0, s.len() as int);
    assert(s.subrange(0, s.len() as int) =~= s);
}

/// The records of a listing split into the first record and the rest.
proof fn lemma_encode_front(l: Listing)
    requires
        l.len() > 0,
    ensures
        spec_encode(l) == record(l[0].0, l[0].1) + spec_encode(l.drop_first()),
    decreases l.len(),
{
    if l.len() == 1 {
        assert(l.drop_last() =~= Seq::<(Seq<char>, Seq<char>)>::empty());
        assert(l.drop_first() =~= Seq::<(Seq<char>, Seq<char>)>::empty());
        assert(spec_encode(l) =~= record(l[0].0, l[0].1) + spec_encode(l.drop_first()));
    } else {
        lemma_encode_front(l.drop_last());
        assert(l.drop_last().drop_first() =~= l.drop_first().drop_last());
        assert(l.drop_first().last() == l.last());
        assert(l.drop_last()[0] == l[0]);
        assert(spec_encode(l) =~= record(l[0].0, l[0].1) + spec_encode(l.drop_first()));
    }
}

/// A record is valid UTF-8.
proof fn lemma_record_valid(name: Seq<char>, value: Seq<char>)
    ensures
        valid_utf8(record(name, value)),
{
    let e = encode_utf8(name);
    let d = decimal(encode_utf8(value).len());
    lemma_decimal(encode_utf8(value).len());
    encode_utf8_valid_utf8(name);
    encode_utf8_valid_utf8(value);
    lemma_ascii_valid(seq![space()]);
    lemma_ascii_valid(seq![newline()]);
    assert forall|k: int| 0 <= k < d.len() implies #[trigger] d[k] < 0x80 by {
        assert(48 <= d[k] <= 57);
    }
    lemma_ascii_valid(d);
    valid_utf8_concat(e, seq![space()]);
    valid_utf8_concat(e + seq![space()], d);
    valid_utf8_concat(e + seq![space()] + d, seq![newline()]);
    valid_utf8_concat(e + seq![space()] + d + seq![newline()], encode_utf8(value));
    valid_utf8_concat(
        e + seq![space()] + d + seq![newline()] + encode_utf8(value),
        seq![newline()],
    );
}

/// The records of a listing are valid UTF-8.
proof fn lemma_encode_valid(l: Listing)
    ensures
        valid_utf8(spec_encode(l)),
    decreases l.len(),
{
    lemma_ascii_valid(Seq::<u8>::empty());
    if l.len() > 0 {
        lemma_encode_valid(l.drop_last());
        lemma_record_valid(l.last().0, l.last().1);
        valid_utf8_concat(spec_encode(l.drop_last()), record(l.last().0, l.last().1));
    }
}

/// Reading one record, followed by valid text, stores its name and value.
proof fn lemma_decode_record(
    acc: Map<Seq<char>, Seq<char>>,
    name: Seq<char>,
    value: Seq<char>,
    rest: Seq<u8>,
)
    requires
        !name.contains('\n'),
        encode_utf8(value).len() <= usize::MAX,
        valid_utf8(rest),
    ensures
        decode_into(acc, record(name, value) + rest) == decode_into(acc.insert(name, value), rest),
{
    let e = encode_utf8(name);
    let v = encode_utf8(value);
    let len = v.len();
    let d = decimal(len);
    let r = record(name, value) + rest;
    lemma_decimal(len);
    lemma_encode_lacks_byte(name, '\n');
    assert(('\n' as u32) as u8 == newline());
    let p: int = e.len() as int + 1 + d.len() as int;
    assert(r =~= e + seq![space()] + d + seq![newline()] + v + seq![newline()] + rest);
    assert forall|k: int| 0 <= k < p implies r[k] != newline() by {
        if k < e.len() {
            assert(r[k] == e[k]);
        } else if k == e.len() {
            assert(r[k] == space());
        } else {
            assert(r[k] == d[k - e.len() - 1]);
            assert(48 <= d[k - e.len() - 1] <= 57);
        }
    }
    assert(r[p] == newline());
    assert(is_first(r, newline(), p));
    let i = choose|i: int| is_first(r, newline(), i);
    assert(i == p) by {
        if i < p {
            assert(r[i] == newline());
        } else if i > p {
            assert(r[p] == newline());
        }
    }
    let header = r.subrange(0, p);
    let body = r.subrange(p + 1, r.len() as int);
    assert(header =~= e + seq![space()] + d);
    assert(body =~= v + seq![newline()] + rest);
    let q = e.len() as int;
    assert forall|k: int| q < k < header.len() implies header[k] != space() by {
        assert(header[k] == d[k - q - 1]);
        assert(48 <= d[k - q - 1] <= 57);
    }
    assert(is_last(header, space(), q));
    let j = choose|j: int| is_last(header, space(), j);
    assert(j == q) by {
        if j < q {
            assert(header[q] == space());
        } else if j > q {
            assert(header[j] == space());
        }
    }
    assert(header.subrange(0, j) =~= e);
    assert(header.subrange(j + 1, header.len() as int) =~= d);
    lemma_parse_decimal(len as usize);
    encode_utf8_valid_utf8(value);
    lemma_ascii_valid(seq![newline()]);
    valid_utf8_concat(v, seq![newline()]);
    valid_utf8_concat(v + seq![newline()], rest);
    assert(body[len as int] == newline());
    is_char_boundary_iff_not_is_continuation_byte(body, len as int);
    assert(body.subrange(0, len as int) =~= v);
    assert(body.subrange(len as int + 1, body.len() as int) =~= rest);
    encode_utf8_decode_utf8(name);
    encode_utf8_decode_utf8(value);
}

/// Inserts the entries of `l` into `acc`, first to last.
pub open spec fn insert_all(acc: Map<Seq<char>, Seq<char>>, l: Listing) -> Map<Seq<char>, Seq<char>>
    decreases l.len(),
{
    if l.len() == 0 {
        acc
    } else {
        insert_all(acc.insert(l[0].0, l[0].1), l.drop_first())
    }
}

/// Reading the records of a listing inserts its entries in order.
proof fn lemma_decode_all(acc: Map<Seq<char>, Seq<char>>, l: Listing)
    requires
        forall|i: int| 0 <= i < l.len() ==> !(#[trigger] l[i]).0.contains('\n'),
        forall|i: int| 0 <= i < l.len() ==> encode_utf8((#[trigger] l[i]).1).len() <= usize::MAX,
    ensures
        decode_into(acc, spec_encode(l)) == Ok::<Map<Seq<char>, Seq<char>>, DecodeFault>(
            insert_all(acc, l),
        ),
    decreases l.len(),
{
    if l.len() == 0 {
        assert(spec_encode(l) =~= Seq::<u8>::empty());
    } else {
        lemma_encode_front(l);
        let t = l.drop_first();
        assert forall|i: int| 0 <= i < t.len() implies !(#[trigger] t[i]).0.contains('\n') by {
            assert(t[i] == l[i + 1]);
        }
        assert forall|i: int| 0 <= i < t.len() implies encode_utf8((#[trigger] t[i]).1).len()
            <= usize::MAX by {
            assert(t[i] == l[i + 1]);
        }
        lemma_encode_valid(t);
        assert(!l[0].0.contains('\n'));
        assert(encode_utf8(l[0].1).len() <= usize::MAX);
        lemma_decode_record(acc, l[0].0, l[0].1, spec_encode(t));
        lemma_decode_all(acc.insert(l[0].0, l[0].1), t);
    }
}

/// For a sorted listing, inserting its entries into `acc` overlays its map on `acc`.
proof fn lemma_insert_all(acc: Map<Seq<char>, Seq<char>>, l: Listing)
    requires
        sorted_by_name(l),
    ensures
        insert_all(acc, l) == acc.union_prefer_right(map_of(l)),
    decreases l.len(),
{
    if l.len() == 0 {
        assert(acc.union_prefer_right(map_of(l)) =~= acc);
    } else {
        let t = l.drop_first();
        let k = l[0].0;
        assert(sorted_by_name(t)) by {
            assert forall|a: int, b: int| 0 <= a < b < t.len() implies bytes_lt(
                #[trigger] encode_utf8(t[a].0),
                #[trigger] encode_utf8(t[b].0),
            ) by {
                assert(t[a] == l[a + 1] && t[b] == l[b + 1]);
            }
        }
        lemma_insert_all(acc.insert(k, l[0].1), t);
        lemma_map_of_index(l, 0);
        let m = map_of(l);
        let mt = map_of(t);
        assert forall|k2: Seq<char>| #![trigger m.dom().contains(k2)] m.dom().contains(k2) <==> (k2 == k || mt.dom().contains(k2)) by {
            if mt.dom().contains(k2) {
                let j = crate::secrets::index_of_name(t, k2);
                assert(l[j + 1].0 == k2);
            }
            if m.dom().contains(k2) && k2 != k {
                let j = crate::secrets::index_of_name(l, k2);
                assert(j != 0);
                assert(t[j - 1].0 == k2);
            }
        }
        assert forall|k2: Seq<char>| mt.dom().contains(k2) implies k2 != k && #[trigger] mt[k2] == m[k2] by {
            let j = crate::secrets::index_of_name(t, k2);
            assert(t[j] == l[j + 1]);
            lemma_map_of_index(t, j);
            lemma_map_of_index(l, j + 1);
            crate::bytes_order::lemma_bytes_lt_irreflexive(encode_utf8(k));
            assert(bytes_lt(encode_utf8(l[0].0), encode_utf8(l[j + 1].0)));
        }
        assert(acc.insert(k, l[0].1).union_prefer_right(mt) =~= acc.union_prefer_right(m));
    }
}

/// What `encode` writes, `decode` reads back: the text of a sorted listing
/// whose names hold no newline decodes to the listing's map. (Each value's
/// UTF-8 length must fit a `usize`, as the length of any string in memory does.)
pub proof fn lemma_decode_encode(l: Listing)
    requires
        sorted_by_name(l),
        forall|i: int| 0 <= i < l.len() ==> !(#[trigger] l[i]).0.contains('\n'),
        forall|i: int| 0 <= i < l.len() ==> encode_utf8((#[trigger] l[i]).1).len() <= usize::MAX,
    ensures
        spec_decode(spec_encode(l)) == Ok::<Map<Seq<char>, Seq<char>>, DecodeFault>(map_of(l)),
{
    lemma_decode_all(Map::empty(), l);
    lemma_insert_all(Map::empty(), l);
    assert(Map::<Seq<char>, Seq<char>>::empty().union_prefer_right(map_of(l)) =~= map_of(l));
}

} // verus!
