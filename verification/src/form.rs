//! Decoding of `application/x-www-form-urlencoded` request bodies.
use vstd::prelude::*;
use crate::strings::{fields, fields_from, free_of, from_utf8_lossy, law_fields_single, law_fields_split, utf8_lossy};
use vstd::utf8::{decode_utf8, encode_utf8, valid_utf8};

verus! {

/// The value of an ASCII hexadecimal digit.
pub open spec fn hex_digit(byte: u8) -> Option<u8> {
    if 0x30 <= byte <= 0x39 {
        Some((byte - 0x30) as u8)
    } else if 0x61 <= byte <= 0x66 {
        Some((byte - 0x61 + 10) as u8)
    } else if 0x41 <= byte <= 0x46 {
        Some((byte - 0x41 + 10) as u8)
    } else {
        None
    }
}

/// The value of an ASCII hexadecimal digit (`0-9`, `a-f`, `A-F`).
pub fn hex_value(byte: u8) -> (v: Option<u8>)
    ensures
        v == hex_digit(byte),
{
    if 0x30 <= byte && byte <= 0x39 {
        Some(byte - 0x30)
    } else if 0x61 <= byte && byte <= 0x66 {
        Some(byte - 0x61 + 10)
    } else if 0x41 <= byte && byte <= 0x46 {
        Some(byte - 0x41 + 10)
    } else {
        None
    }
}

/// The bytes that percent-decoding makes of `b`: `+` becomes a space, `%`
/// followed by two hex digits becomes the byte they spell, and every other
/// byte (a `%` without two hex digits after it too) stays as it is.
pub open spec fn percent_decoded(b: Seq<u8>) -> Seq<u8>
    decreases b.len(),
{
    if b.len() == 0 {
        Seq::empty()
    } else if b[0] == 0x2B {
        seq![0x20u8] + percent_decoded(b.skip(1))
    } else if b[0] == 0x25 && 2 < b.len() && hex_digit(b[1]) is Some && hex_digit(b[2]) is Some {
        seq![((hex_digit(b[1])->0 << 4u8) | hex_digit(b[2])->0) as u8] + percent_decoded(b.skip(3))
    } else {
        seq![b[0]] + percent_decoded(b.skip(1))
    }
}

/// Percent-decode a byte string (see [`percent_decoded`]).
pub fn percent_decode_bytes(bytes: &[u8]) -> (out: Vec<u8>)
    ensures
        out@ == percent_decoded(bytes@),
{
    let mut out: Vec<u8> = Vec::new();
    let mut index: usize = 0;
    assert(bytes@.skip(0) =~= bytes@);
    while index < bytes.len()
        invariant
            index <= bytes.len(),
            percent_decoded(bytes@) == out@ + percent_decoded(bytes@.skip(index as int)),
        decreases bytes.len() - index,
    {
        let ghost rest = bytes@.skip(index as int);
        let ghost before = out@;
        assert(rest[0] == bytes@[index as int]);
        if bytes[index] == 0x2B {
            // `+` encodes a space.
            out.push(0x20);
            assert(rest.skip(1) =~= bytes@.skip(index + 1));
            index = index + 1;
        } else if bytes[index] == 0x25 /* `%` */ && bytes.len() - index > 2 {
            assert(rest[1] == bytes@[index + 1]);
            assert(rest[2] == bytes@[index + 2]);
            match (hex_value(bytes[index + 1]), hex_value(bytes[index + 2])) {
                (Some(high), Some(low)) => {
                    out.push(high << 4 | low);
                    assert(rest.skip(3) =~= bytes@.skip(index + 3));
                    index = index + 3;
                },
                _ => {
                    out.push(0x25);
                    assert(rest.skip(1) =~= bytes@.skip(index + 1));
                    index = index + 1;
                },
            }
        } else {
            out.push(bytes[index]);
            assert(rest.skip(1) =~= bytes@.skip(index + 1));
            index = index + 1;
        }
        assert(out@ + percent_decoded(bytes@.skip(index as int)) =~= before + percent_decoded(rest));
    }
    out
}

/// Percent-decode `input` as a form field: the decoded bytes are read as
/// UTF-8, with invalid sequences replaced.
pub fn percent_decode(input: &str) -> (s: String)
    ensures
        s@ == utf8_lossy(percent_decoded(vstd::utf8::encode_utf8(input@))),
        valid_utf8(percent_decoded(vstd::utf8::encode_utf8(input@))) ==> s@ == decode_utf8(
            percent_decoded(vstd::utf8::encode_utf8(input@)),
        ),
{
    let decoded = percent_decode_bytes(input.as_bytes());
    from_utf8_lossy(decoded.as_slice())
}

/// The non-empty runs of `s` between `sep` bytes, in order.
pub fn split_nonempty(s: &[u8], sep: u8) -> (out: Vec<Vec<u8>>)
    ensures
        out@.map_values(|p: Vec<u8>| p@) == fields(s@, |b: u8| b == sep),
{
    let ghost is_sep = |b: u8| b == sep;
    let mut out: Vec<Vec<u8>> = Vec::new();
    let mut cur: Vec<u8> = Vec::new();
    let mut i: usize = 0;
    assert(s@.skip(0) =~= s@);
    while i < s.len()
        invariant
            i <= s.len(),
            is_sep == (|b: u8| b == sep),
            fields(s@, is_sep) == out@.map_values(|p: Vec<u8>| p@) + fields_from(
                s@.skip(i as int),
                is_sep,
                cur@,
            ),
        decreases s.len() - i,
    {
        let ghost before = out@.map_values(|p: Vec<u8>| p@);
        let ghost rest = s@.skip(i + 1);
        assert(s@.skip(i as int).drop_first() =~= rest);
        assert(s@.skip(i as int)[0] == s@[i as int]);
        assert(is_sep(s@[i as int]) == (s@[i as int] == sep));
        if s[i] == sep {
            if cur.len() > 0 {
                let ghost cw = cur@;
                assert(fields_from(s@.skip(i as int), is_sep, cw) == seq![cw] + fields_from(
                    rest,
                    is_sep,
                    Seq::empty(),
                ));
                out.push(cur);
                cur = Vec::new();
                assert(out@.map_values(|p: Vec<u8>| p@) =~= before + seq![cw]);
                assert(before + (seq![cw] + fields_from(rest, is_sep, Seq::empty())) =~= before
                    + seq![cw] + fields_from(rest, is_sep, cur@));
            } else {
                assert(fields_from(s@.skip(i as int), is_sep, cur@) =~= fields_from(
                    rest,
                    is_sep,
                    Seq::empty(),
                ));
                assert(cur@ =~= Seq::<u8>::empty());
            }
        } else {
            assert(fields_from(s@.skip(i as int), is_sep, cur@) == fields_from(
                rest,
                is_sep,
                cur@.push(s@[i as int]),
            ));
            cur.push(s[i]);
        }
        i = i + 1;
    }
    if cur.len() > 0 {
        let ghost before = out@.map_values(|p: Vec<u8>| p@);
        let ghost cw = cur@;
        out.push(cur);
        assert(out@.map_values(|p: Vec<u8>| p@) =~= before + seq![cw]);
    } else {
        assert(out@.map_values(|p: Vec<u8>| p@) =~= out@.map_values(|p: Vec<u8>| p@) + Seq::<
            Seq<u8>,
        >::empty());
    }
    out
}

/// The part of a `key=value` pair before its first `=` (all of it where it
/// has none).
pub open spec fn key_part(p: Seq<u8>) -> Seq<u8>
    decreases p.len(),
{
    if p.len() == 0 {
        Seq::empty()
    } else if p[0] == 0x3D {
        Seq::empty()
    } else {
        seq![p[0]] + key_part(p.skip(1))
    }
}

/// The part of a `key=value` pair after its first `=` (empty where it has
/// none).
pub open spec fn value_part(p: Seq<u8>) -> Seq<u8>
    decreases p.len(),
{
    if p.len() == 0 {
        Seq::empty()
    } else if p[0] == 0x3D {
        p.skip(1)
    } else {
        value_part(p.skip(1))
    }
}

/// Split a pair at its first `=` (see [`key_part`] and [`value_part`]).
pub fn split_pair(p: &[u8]) -> (kv: (Vec<u8>, Vec<u8>))
    ensures
        kv.0@ == key_part(p@),
        kv.1@ == value_part(p@),
{
    let mut key: Vec<u8> = Vec::new();
    let mut i: usize = 0;
    assert(p@.skip(0) =~= p@);
    while i < p.len() && p[i] != 0x3D
        invariant
            i <= p.len(),
            key_part(p@) == key@ + key_part(p@.skip(i as int)),
            value_part(p@) == value_part(p@.skip(i as int)),
        decreases p.len() - i,
    {
        assert(p@.skip(i as int).skip(1) =~= p@.skip(i + 1));
        assert(key@.push(p@[i as int]) + key_part(p@.skip(i + 1)) =~= key@ + key_part(
            p@.skip(i as int),
        ));
        key.push(p[i]);
        i = i + 1;
    }
    let mut value: Vec<u8> = Vec::new();
    if i < p.len() {
        let mut j: usize = i + 1;
        assert(p@.skip(i as int).skip(1) =~= p@.skip(i + 1));
        while j < p.len()
            invariant
                i < j <= p.len(),
                value_part(p@) == p@.skip(i + 1),
                value@ == p@.subrange(i + 1, j as int),
            decreases p.len() - j,
        {
            value.push(p[j]);
            assert(value@ =~= p@.subrange(i + 1, j + 1));
            j = j + 1;
        }
        assert(value@ =~= p@.skip(i + 1));
    } else {
        assert(p@.skip(i as int) =~= Seq::<u8>::empty());
        assert(key@ =~= key@ + Seq::<u8>::empty());
    }
    (key, value)
}

/// The decoded `(key, value)` pairs of a form body given as bytes: the
/// non-empty `&`-separated pieces, each split at its first `=`, both halves
/// percent-decoded and read as UTF-8.
pub open spec fn form_pairs(body: Seq<u8>) -> Seq<(Seq<char>, Seq<char>)> {
    fields(body, |b: u8| b == 0x26).map_values(
        |p: Seq<u8>|
            (utf8_lossy(percent_decoded(key_part(p))), utf8_lossy(percent_decoded(value_part(p)))),
    )
}

/// The views of decoded pairs.
pub open spec fn pairs_view(v: Seq<(String, String)>) -> Seq<(Seq<char>, Seq<char>)> {
    v.map_values(|kv: (String, String)| (kv.0@, kv.1@))
}

/// Where a half of `pair` decodes to valid UTF-8, `key` and `value` are that
/// text.
pub open spec fn decoded_halves_valid(pair: Seq<u8>, key: Seq<char>, value: Seq<char>) -> bool {
    &&& valid_utf8(percent_decoded(key_part(pair))) ==> key == decode_utf8(
        percent_decoded(key_part(pair)),
    )
    &&& valid_utf8(percent_decoded(value_part(pair))) ==> value == decode_utf8(
        percent_decoded(value_part(pair)),
    )
}

/// Decode a form body into its `(key, value)` pairs (see [`form_pairs`]).
pub fn parse_form(body: &str) -> (pairs: Vec<(String, String)>)
    ensures
        pairs_view(pairs@) == form_pairs(vstd::utf8::encode_utf8(body@)),
        forall|i: int|
            0 <= i < pairs@.len() ==> decoded_halves_valid(
                fields(encode_utf8(body@), |b: u8| b == 0x26)[i],
                pairs@[i].0@,
                pairs@[i].1@,
            ),
{
    let bytes = body.as_bytes();
    let pieces = split_nonempty(bytes, 0x26);
    let ghost pv = pieces@.map_values(|p: Vec<u8>| p@);
    let ghost target = form_pairs(vstd::utf8::encode_utf8(body@));
    let mut pairs: Vec<(String, String)> = Vec::new();
    let mut i: usize = 0;
    while i < pieces.len()
        invariant
            i <= pieces.len(),
            pv == pieces@.map_values(|p: Vec<u8>| p@),
            pv == fields(bytes@, |b: u8| b == 0x26),
            bytes@ == vstd::utf8::encode_utf8(body@),
            target == form_pairs(vstd::utf8::encode_utf8(body@)),
            pairs_view(pairs@) == target.take(i as int),
            pairs@.len() == i,
            forall|k: int|
                0 <= k < i ==> decoded_halves_valid(pv[k], pairs@[k].0@, pairs@[k].1@),
        decreases pieces.len() - i,
    {
        let (k, v) = split_pair(pieces[i].as_slice());
        let key = from_utf8_lossy(percent_decode_bytes(k.as_slice()).as_slice());
        let value = from_utf8_lossy(percent_decode_bytes(v.as_slice()).as_slice());
        let ghost before = pairs@;
        assert(pv[i as int] == pieces@[i as int]@);
        pairs.push((key, value));
        assert(pairs@[i as int] == (key, value));
        assert(pairs_view(pairs@) =~= target.take(i + 1)) by {
            assert(pairs@ == before.push((key, value)));
            assert(pv[i as int] == pieces@[i as int]@);
            assert(pairs_view(pairs@) =~= pairs_view(before).push((key@, value@)));
            assert(target[i as int] == (key@, value@));
            assert(target.take(i + 1) =~= target.take(i as int).push(target[i as int]));
        }
        i = i + 1;
    }
    assert(target.take(pieces.len() as int) =~= target);
    pairs
}

/// The upper-case ASCII hexadecimal digit of `n < 16`.
pub open spec fn hex_char(n: u8) -> u8 {
    if n < 10 {
        (0x30 + n) as u8
    } else {
        (0x41 + n - 10) as u8
    }
}

/// Every byte of `b` written as `%` and two hexadecimal digits.
pub open spec fn percent_encoded(b: Seq<u8>) -> Seq<u8>
    decreases b.len(),
{
    if b.len() == 0 {
        Seq::empty()
    } else {
        seq![0x25u8, hex_char(b[0] >> 4u8), hex_char(b[0] & 0x0fu8)] + percent_encoded(b.skip(1))
    }
}

/// Percent-decoding undoes percent-encoding: any byte string written as
/// `%XX` escapes decodes to itself.
pub proof fn law_percent_roundtrip(b: Seq<u8>)
    ensures
        percent_decoded(percent_encoded(b)) == b,
    decreases b.len(),
{
    if b.len() > 0 {
        let x = b[0];
        let hi = x >> 4u8;
        let lo = x & 0x0fu8;
        assert(hi < 16 && lo < 16 && ((hi << 4u8) | lo) == x) by (bit_vector)
            requires
                hi == x >> 4u8,
                lo == x & 0x0fu8,
        ;
        let e = percent_encoded(b);
        let rest = percent_encoded(b.skip(1));
        assert(e.skip(3) =~= rest);
        assert(hex_digit(hex_char(hi)) == Some(hi));
        assert(hex_digit(hex_char(lo)) == Some(lo));
        law_percent_roundtrip(b.skip(1));
        assert(percent_decoded(e) =~= seq![x] + b.skip(1));
        assert(seq![x] + b.skip(1) =~= b);
    }
}

/// Bytes other than `%` and `+` decode to themselves.
pub proof fn law_plain_bytes_unchanged(b: Seq<u8>)
    requires
        forall|i: int| 0 <= i < b.len() ==> b[i] != 0x25 && b[i] != 0x2B,
    ensures
        percent_decoded(b) == b,
    decreases b.len(),
{
    if b.len() > 0 {
        law_plain_bytes_unchanged(b.skip(1));
        assert(seq![b[0]] + b.skip(1) =~= b);
    }
}

/// The lower-case ASCII hexadecimal digit of `n < 16`.
pub open spec fn hex_char_lower(n: u8) -> u8 {
    if n < 10 {
        (0x30 + n) as u8
    } else {
        (0x61 + n - 10) as u8
    }
}

/// `b` with its bytes written as `how` chooses: `0` keeps a byte, `1` writes
/// it as `%XX` with upper-case digits, any other value as `%xx` with
/// lower-case digits.
pub open spec fn escape_bytes(b: Seq<u8>, how: Seq<u8>) -> Seq<u8>
    decreases b.len(),
{
    if b.len() == 0 {
        Seq::empty()
    } else {
        let x = b[0];
        let first = if how[0] == 0 {
            seq![x]
        } else if how[0] == 1 {
            seq![0x25u8, hex_char(x >> 4u8), hex_char(x & 0x0fu8)]
        } else {
            seq![0x25u8, hex_char_lower(x >> 4u8), hex_char_lower(x & 0x0fu8)]
        };
        first + escape_bytes(b.skip(1), how.skip(1))
    }
}

/// Decoding undoes any escaping that leaves no `%` or `+` unescaped: each
/// byte may be kept or written as `%XX` in either case of hexadecimal digits.
pub proof fn law_percent_partial_roundtrip(b: Seq<u8>, how: Seq<u8>)
    requires
        how.len() == b.len(),
        forall|i: int| 0 <= i < b.len() && (b[i] == 0x25 || b[i] == 0x2B) ==> how[i] != 0,
    ensures
        percent_decoded(escape_bytes(b, how)) == b,
    decreases b.len(),
{
    if b.len() > 0 {
        let x = b[0];
        let hi = x >> 4u8;
        let lo = x & 0x0fu8;
        assert(hi < 16 && lo < 16 && ((hi << 4u8) | lo) == x) by (bit_vector)
            requires
                hi == x >> 4u8,
                lo == x & 0x0fu8,
        ;
        let e = escape_bytes(b, how);
        let rest = escape_bytes(b.skip(1), how.skip(1));
        assert forall|i: int|
            0 <= i < b.skip(1).len() && (b.skip(1)[i] == 0x25 || b.skip(1)[i] == 0x2B) implies how.skip(
            1,
        )[i] != 0 by {
            assert(b.skip(1)[i] == b[i + 1]);
        }
        law_percent_partial_roundtrip(b.skip(1), how.skip(1));
        if how[0] == 0 {
            assert(e.skip(1) =~= rest);
        } else {
            assert(e.skip(3) =~= rest);
            assert(hex_digit(hex_char(hi)) == Some(hi));
            assert(hex_digit(hex_char(lo)) == Some(lo));
            assert(hex_digit(hex_char_lower(hi)) == Some(hi));
            assert(hex_digit(hex_char_lower(lo)) == Some(lo));
        }
        assert(percent_decoded(e) =~= seq![x] + b.skip(1));
        assert(seq![x] + b.skip(1) =~= b);
    }
}

/// A text escaped that way decodes back to itself: the decoded bytes are its
/// UTF-8 encoding, which is valid, so [`percent_decode`] returns the text.
pub proof fn law_percent_decode_escaped(s: Seq<char>, how: Seq<u8>)
    requires
        how.len() == encode_utf8(s).len(),
        forall|i: int|
            0 <= i < encode_utf8(s).len() && (encode_utf8(s)[i] == 0x25 || encode_utf8(s)[i]
                == 0x2B) ==> how[i] != 0,
    ensures
        valid_utf8(percent_decoded(escape_bytes(encode_utf8(s), how))),
        decode_utf8(percent_decoded(escape_bytes(encode_utf8(s), how))) == s,
{
    law_percent_partial_roundtrip(encode_utf8(s), how);
    vstd::utf8::encode_utf8_valid_utf8(s);
    vstd::utf8::encode_utf8_decode_utf8(s);
}

/// The hexadecimal digits are exactly `0-9`, `a-f` and `A-F`, each worth its
/// value below 16.
pub proof fn law_hex_digits(c: u8, v: u8)
    ensures
        hex_digit(c) matches Some(d) ==> d < 16 && (c == hex_char(d) || c == hex_char_lower(d)),
        v < 16 ==> hex_digit(hex_char(v)) == Some(v) && hex_digit(hex_char_lower(v)) == Some(v),
{
}

/// Without a `%`, decoding only turns each `+` into a space.
pub proof fn law_decode_plus_only(b: Seq<u8>)
    requires
        forall|i: int| 0 <= i < b.len() ==> b[i] != 0x25,
    ensures
        percent_decoded(b) == b.map_values(|x: u8| if x == 0x2B { 0x20u8 } else { x }),
    decreases b.len(),
{
    if b.len() > 0 {
        law_decode_plus_only(b.skip(1));
        assert(b.map_values(|x: u8| if x == 0x2B { 0x20u8 } else { x }) =~= seq![
            if b[0] == 0x2B { 0x20u8 } else { b[0] },
        ] + b.skip(1).map_values(|x: u8| if x == 0x2B { 0x20u8 } else { x }));
    }
}

/// A `%` that is not followed by two hexadecimal digits is kept as it is,
/// and decoding goes on right after it.
pub proof fn law_decode_bad_escape(b: Seq<u8>)
    requires
        b.len() > 0,
        b[0] == 0x25,
        !(2 < b.len() && hex_digit(b[1]) is Some && hex_digit(b[2]) is Some),
    ensures
        percent_decoded(b) == seq![0x25u8] + percent_decoded(b.skip(1)),
{
}

/// A pair is its key, `=`, and its value where it has an `=`; the key holds
/// no `=`. Without an `=` the whole pair is the key and the value is empty.
pub proof fn law_pair_parts(p: Seq<u8>)
    ensures
        forall|i: int| 0 <= i < key_part(p).len() ==> #[trigger] key_part(p)[i] != 0x3D,
        (exists|i: int| 0 <= i < p.len() && p[i] == 0x3D) ==> p == key_part(p) + seq![0x3Du8]
            + value_part(p),
        (forall|i: int| 0 <= i < p.len() ==> p[i] != 0x3D) ==> key_part(p) == p && value_part(p)
            == Seq::<u8>::empty(),
    decreases p.len(),
{
    if p.len() > 0 {
        law_pair_parts(p.skip(1));
        let r = p.skip(1);
        if p[0] == 0x3D {
            assert(p =~= Seq::<u8>::empty() + seq![0x3Du8] + r);
        } else {
            assert forall|i: int| 0 <= i < key_part(p).len() implies #[trigger] key_part(p)[i] != 0x3D by {
                if i > 0 {
                    assert(key_part(p)[i] == key_part(r)[i - 1]);
                }
            }
            if exists|i: int| 0 <= i < p.len() && p[i] == 0x3D {
                let i = choose|i: int| 0 <= i < p.len() && p[i] == 0x3D;
                assert(r[i - 1] == 0x3D);
                assert(p =~= seq![p[0]] + r);
                assert(p =~= key_part(p) + seq![0x3Du8] + value_part(p));
            } else {
                assert forall|i: int| 0 <= i < r.len() implies r[i] != 0x3D by {
                    assert(r[i] == p[i + 1]);
                }
                assert(p =~= seq![p[0]] + r);
            }
        }
    }
}

/// Decoding a form works pair by pair: the pairs of two bodies joined by `&`
/// are the pairs of each, in order; a body without `&` that is not empty is
/// one pair, its key and value decoded from the parts before and after its
/// first `=`.
pub proof fn law_form_pairs_split(a: Seq<u8>, b: Seq<u8>)
    ensures
        form_pairs(a + seq![0x26u8] + b) == form_pairs(a) + form_pairs(b),
        (a.len() > 0 && forall|i: int| 0 <= i < a.len() ==> a[i] != 0x26) ==> form_pairs(a) == seq![
            (utf8_lossy(percent_decoded(key_part(a))), utf8_lossy(percent_decoded(value_part(a)))),
        ],
{
    let is_amp = |x: u8| x == 0x26;
    law_fields_split(a, 0x26u8, b, is_amp);
    let f = |p: Seq<u8>|
        (utf8_lossy(percent_decoded(key_part(p))), utf8_lossy(percent_decoded(value_part(p))));
    assert((fields(a, is_amp) + fields(b, is_amp)).map_values(f) =~= fields(a, is_amp).map_values(f)
        + fields(b, is_amp).map_values(f));
    if a.len() > 0 && forall|i: int| 0 <= i < a.len() ==> a[i] != 0x26 {
        assert(free_of(a, is_amp));
        law_fields_single(a, is_amp);
        assert(seq![a].map_values(f) =~= seq![f(a)]);
    }
}

} // verus!
