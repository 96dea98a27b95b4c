//! Model of standard-alphabet base64 without padding, and the executable
//! encoder and decoder used by the framing layer.
//!
//! The wire format packs every 3 payload bytes into 4 ASCII characters of the
//! standard alphabet (`A`-`Z`, `a`-`z`, `0`-`9`, `+`, `/`), with a 2- or
//! 3-character group for a trailing 1 or 2 bytes and no `=` padding. The spec
//! functions here define that encoding bit by bit; the executable encoder and
//! decoder call into the `base64` crate and are trusted to match the spec.

use vstd::arithmetic::div_mod::lemma_hoist_over_denominator;
use vstd::prelude::*;

verus! {

/// The alphabet character for a 6-bit value (meaningful for `v < 64`).
pub open spec fn b64_char_of(v: u8) -> u8 {
    if v < 26 {
        (65 + v) as u8  // 'A'..='Z'
    } else if v < 52 {
        (97 + (v - 26)) as u8  // 'a'..='z'
    } else if v < 62 {
        (48 + (v - 52)) as u8  // '0'..='9'
    } else if v == 62 {
        43u8  // '+'
    } else {
        47u8  // '/'
    }
}

/// The 6-bit value of an alphabet character, or `None` for a byte outside the
/// alphabet (including the `=` padding character, which the wire format does
/// not use).
pub open spec fn b64_value_of(c: u8) -> Option<u8> {
    if 65 <= c <= 90 {
        Some((c - 65) as u8)
    } else if 97 <= c <= 122 {
        Some((c - 97 + 26) as u8)
    } else if 48 <= c <= 57 {
        Some((c - 48 + 52) as u8)
    } else if c == 43 {
        Some(62u8)
    } else if c == 47 {
        Some(63u8)
    } else {
        None
    }
}

/// Whether a byte is a character of the standard base64 alphabet.
pub open spec fn is_b64_byte(c: u8) -> bool {
    b64_value_of(c) is Some
}

/// The 4 characters encoding a full group of 3 bytes.
pub open spec fn enc_group3(b0: u8, b1: u8, b2: u8) -> Seq<u8> {
    seq![
        b64_char_of(b0 >> 2),
        b64_char_of(((b0 & 3) << 4) | (b1 >> 4)),
        b64_char_of(((b1 & 15) << 2) | (b2 >> 6)),
        b64_char_of(b2 & 63),
    ]
}

/// Base64 encoding of a byte sequence: full groups of 3 bytes become 4
/// characters; a trailing 1 or 2 bytes become 2 or 3 characters, with the
/// unused low bits of the last character zero. No padding is emitted.
pub open spec fn spec_encode(s: Seq<u8>) -> Seq<u8>
    decreases s.len(),
{
    if s.len() == 0 {
        Seq::empty()
    } else if s.len() == 1 {
        seq![b64_char_of(s[0] >> 2), b64_char_of((s[0] & 3) << 4)]
    } else if s.len() == 2 {
        seq![
            b64_char_of(s[0] >> 2),
            b64_char_of(((s[0] & 3) << 4) | (s[1] >> 4)),
            b64_char_of((s[1] & 15) << 2),
        ]
    } else {
        enc_group3(s[0], s[1], s[2]) + spec_encode(s.skip(3))
    }
}

/// The first decoded byte of a group, from the first two character values.
pub open spec fn dec_byte0(v0: u8, v1: u8) -> u8 {
    (v0 << 2) | (v1 >> 4)
}

/// The second decoded byte of a group, from the second and third values.
pub open spec fn dec_byte1(v1: u8, v2: u8) -> u8 {
    ((v1 & 15) << 4) | (v2 >> 2)
}

/// The third decoded byte of a group, from the third and fourth values.
pub open spec fn dec_byte2(v2: u8, v3: u8) -> u8 {
    ((v2 & 3) << 6) | v3
}

/// Base64 decoding of a character sequence. `None` when a character is
/// outside the alphabet, when the length leaves a remainder of 1 character
/// (6 bits cannot form a byte), or when the unused low bits of the last
/// character of a partial final group are not zero.
pub open spec fn spec_decode(s: Seq<u8>) -> Option<Seq<u8>>
    decreases s.len(),
{
    if s.len() == 0 {
        Some(Seq::empty())
    } else if s.len() == 1 {
        None
    } else if s.len() == 2 {
        match (b64_value_of(s[0]), b64_value_of(s[1])) {
            (Some(v0), Some(v1)) => if (v1 & 15) == 0 {
                Some(seq![dec_byte0(v0, v1)])
            } else {
                None
            },
            _ => None,
        }
    } else if s.len() == 3 {
        match (b64_value_of(s[0]), b64_value_of(s[1]), b64_value_of(s[2])) {
            (Some(v0), Some(v1), Some(v2)) => if (v2 & 3) == 0 {
                Some(seq![dec_byte0(v0, v1), dec_byte1(v1, v2)])
            } else {
                None
            },
            _ => None,
        }
    } else {
        match (b64_value_of(s[0]), b64_value_of(s[1]), b64_value_of(s[2]), b64_value_of(s[3])) {
            (Some(v0), Some(v1), Some(v2), Some(v3)) => match spec_decode(s.skip(4)) {
                Some(rest) => Some(
                    seq![dec_byte0(v0, v1), dec_byte1(v1, v2), dec_byte2(v2, v3)] + rest,
                ),
                None => None,
            },
            _ => None,
        }
    }
}

/// Whether a byte is a character of the standard base64 alphabet.
pub fn is_alphabet_byte(c: u8) -> (r: bool)
    ensures
        r == is_b64_byte(c),
{
    (65 <= c && c <= 90) || (97 <= c && c <= 122) || (48 <= c && c <= 57) || c == 43 || c == 47
}

/// Relies on `base64::encode_config` with the standard character set and
/// padding disabled: the result is the standard no-pad base64 encoding of the
/// input, as `spec_encode` states it character by character.
#[verifier::external_body]
pub(crate) fn encode(input: &[u8]) -> (r: Vec<u8>)
    ensures
        r@ == spec_encode(input@),
{
    let cfg = base64::Config::new(base64::CharacterSet::Standard, false);
    base64::encode_config(input, cfg).into_bytes()
}

/// Relies on `base64::decode_config` with the standard character set: for
/// input made of alphabet characters only, it succeeds exactly when the
/// length leaves no remainder of 1 and the trailing unused bits are zero, and
/// then returns the bytes that `spec_decode` states.
#[verifier::external_body]
pub(crate) fn decode(input: &[u8]) -> (r: Option<Vec<u8>>)
    requires
        forall|i: int| 0 <= i < input@.len() ==> is_b64_byte(input@[i]),
    ensures
        match r {
            Some(v) => spec_decode(input@) == Some(v@),
            None => spec_decode(input@) is None,
        },
{
    let cfg = base64::Config::new(base64::CharacterSet::Standard, false);
    match base64::decode_config(input, cfg) {
        Ok(v) => Some(v),
        Err(_) => None,
    }
}

/// Encoding a 6-bit value yields an alphabet character that decodes back to
/// the same value.
pub proof fn lemma_char_value(v: u8)
    requires
        v < 64,
    ensures
        is_b64_byte(b64_char_of(v)),
        b64_value_of(b64_char_of(v)) == Some(v),
{
}

/// Bit identities for a full 3-byte group: the four character values are in
/// range, and the decoded bytes recombine to the original ones.
proof fn lemma_group3_bits(b0: u8, b1: u8, b2: u8)
    by (bit_vector)
    ensures
        b0 >> 2 < 64,
        (((b0 & 3) << 4) | (b1 >> 4)) < 64,
        (((b1 & 15) << 2) | (b2 >> 6)) < 64,
        b2 & 63 < 64,
        ((b0 >> 2) << 2) | ((((b0 & 3) << 4) | (b1 >> 4)) >> 4) == b0,
        ((((((b0 & 3) << 4) | (b1 >> 4))) & 15) << 4) | (((((b1 & 15) << 2) | (b2 >> 6))) >> 2)
            == b1,
        (((((b1 & 15) << 2) | (b2 >> 6))) & 3) << 6 | (b2 & 63) == b2,
{
}

/// Bit identities for a trailing group of 2 bytes.
proof fn lemma_group2_bits(b0: u8, b1: u8)
    by (bit_vector)
    ensures
        b0 >> 2 < 64,
        (((b0 & 3) << 4) | (b1 >> 4)) < 64,
        ((b1 & 15) << 2) < 64,
        (((b1 & 15) << 2) & 3) == 0,
        ((b0 >> 2) << 2) | ((((b0 & 3) << 4) | (b1 >> 4)) >> 4) == b0,
        ((((((b0 & 3) << 4) | (b1 >> 4))) & 15) << 4) | (((b1 & 15) << 2) >> 2) == b1,
{
}

/// Bit identities for a trailing group of 1 byte.
proof fn lemma_group1_bits(b0: u8)
    by (bit_vector)
    ensures
        b0 >> 2 < 64,
        ((b0 & 3) << 4) < 64,
        (((b0 & 3) << 4) & 15) == 0,
        ((b0 >> 2) << 2) | (((b0 & 3) << 4) >> 4) == b0,
{
}

/// The encoded length of `n` bytes is `ceil(4n / 3)`, written with integer
/// division as `(4n + 2) / 3`.
pub proof fn lemma_encode_len(s: Seq<u8>)
    ensures
        spec_encode(s).len() == (4 * s.len() + 2) / 3,
    decreases s.len(),
{
    if s.len() >= 3 {
        lemma_encode_len(s.skip(3));
        lemma_hoist_over_denominator(4 * s.skip(3).len() as int + 2, 4, 3nat);
    }
}

/// Encoding distributes over a split at a multiple of 3 bytes.
pub proof fn lemma_encode_append(s: Seq<u8>, j: int)
    requires
        0 <= 3 * j <= s.len(),
    ensures
        spec_encode(s) == spec_encode(s.take(3 * j)) + spec_encode(s.skip(3 * j)),
    decreases j,
{
    if j <= 0 {
        assert(s.take(0) =~= Seq::empty());
        assert(s.skip(0) =~= s);
        assert(spec_encode(Seq::empty()) + spec_encode(s) =~= spec_encode(s));
    } else {
        let t = s.take(3 * j);
        lemma_encode_append(s.skip(3), j - 1);
        assert(s.skip(3).take(3 * (j - 1)) =~= t.skip(3));
        assert(s.skip(3).skip(3 * (j - 1)) =~= s.skip(3 * j));
        assert(t.len() >= 3);
        assert(t[0] == s[0] && t[1] == s[1] && t[2] == s[2]);
        assert(spec_encode(s) =~= spec_encode(t) + spec_encode(s.skip(3 * j)));
    }
}

/// A successful decode of `n` characters yields `3n / 4` bytes.
pub proof fn lemma_decode_len(s: Seq<u8>)
    requires
        spec_decode(s) is Some,
    ensures
        spec_decode(s).unwrap().len() == 3 * s.len() / 4,
    decreases s.len(),
{
    if s.len() >= 4 {
        lemma_decode_len(s.skip(4));
        lemma_hoist_over_denominator(3 * s.skip(4).len() as int, 3, 4nat);
    }
}

/// Two alphabet characters with the same 6-bit value are the same character.
pub proof fn lemma_value_injective(c1: u8, c2: u8)
    requires
        b64_value_of(c1) is Some,
        b64_value_of(c1) == b64_value_of(c2),
    ensures
        c1 == c2,
{
}

/// Recovering the four 6-bit values of a full group from its decoded bytes.
proof fn lemma_group3_recover(v0: u8, v1: u8, v2: u8, v3: u8)
    by (bit_vector)
    requires
        v0 < 64,
        v1 < 64,
        v2 < 64,
        v3 < 64,
    ensures
        dec_byte0(v0, v1) >> 2 == v0,
        ((dec_byte0(v0, v1) & 3) << 4) | (dec_byte1(v1, v2) >> 4) == v1,
        ((dec_byte1(v1, v2) & 15) << 2) | (dec_byte2(v2, v3) >> 6) == v2,
        dec_byte2(v2, v3) & 63 == v3,
{
}

/// Recovering the values of a trailing 2-byte group from its decoded bytes.
proof fn lemma_group2_recover(v0: u8, v1: u8, v2: u8)
    by (bit_vector)
    requires
        v0 < 64,
        v1 < 64,
        v2 < 64,
        v2 & 3 == 0,
    ensures
        dec_byte0(v0, v1) >> 2 == v0,
        ((dec_byte0(v0, v1) & 3) << 4) | (dec_byte1(v1, v2) >> 4) == v1,
        (dec_byte1(v1, v2) & 15) << 2 == v2,
{
}

/// Recovering the values of a trailing 1-byte group from its decoded byte.
proof fn lemma_group1_recover(v0: u8, v1: u8)
    by (bit_vector)
    requires
        v0 < 64,
        v1 < 64,
        v1 & 15 == 0,
    ensures
        dec_byte0(v0, v1) >> 2 == v0,
        (dec_byte0(v0, v1) & 3) << 4 == v1,
{
}

/// An alphabet character's value is a 6-bit value.
proof fn lemma_value_bound(c: u8)
    requires
        b64_value_of(c) is Some,
    ensures
        b64_value_of(c).unwrap() < 64,
{
}

/// Decoding is injective: two same-length character sequences that decode
/// successfully to the same bytes are the same sequence. A corrupted encoded
/// section therefore never reproduces the original bytes.
pub proof fn lemma_decode_injective(s1: Seq<u8>, s2: Seq<u8>)
    requires
        s1.len() == s2.len(),
        spec_decode(s1) is Some,
        spec_decode(s1) == spec_decode(s2),
    ensures
        s1 == s2,
    decreases s1.len(),
{
    if s1.len() == 0 {
        assert(s1 =~= s2);
    } else if s1.len() == 2 {
        let v0 = b64_value_of(s1[0]).unwrap();
        let v1 = b64_value_of(s1[1]).unwrap();
        let w0 = b64_value_of(s2[0]).unwrap();
        let w1 = b64_value_of(s2[1]).unwrap();
        lemma_value_bound(s1[0]);
        lemma_value_bound(s1[1]);
        lemma_value_bound(s2[0]);
        lemma_value_bound(s2[1]);
        lemma_group1_recover(v0, v1);
        lemma_group1_recover(w0, w1);
        assert(spec_decode(s1).unwrap()[0] == dec_byte0(v0, v1));
        assert(spec_decode(s2).unwrap()[0] == dec_byte0(w0, w1));
        lemma_value_injective(s1[0], s2[0]);
        lemma_value_injective(s1[1], s2[1]);
        assert(s1 =~= s2);
    } else if s1.len() == 3 {
        let v0 = b64_value_of(s1[0]).unwrap();
        let v1 = b64_value_of(s1[1]).unwrap();
        let v2 = b64_value_of(s1[2]).unwrap();
        let w0 = b64_value_of(s2[0]).unwrap();
        let w1 = b64_value_of(s2[1]).unwrap();
        let w2 = b64_value_of(s2[2]).unwrap();
        lemma_value_bound(s1[0]);
        lemma_value_bound(s1[1]);
        lemma_value_bound(s1[2]);
        lemma_value_bound(s2[0]);
        lemma_value_bound(s2[1]);
        lemma_value_bound(s2[2]);
        lemma_group2_recover(v0, v1, v2);
        lemma_group2_recover(w0, w1, w2);
        assert(spec_decode(s1).unwrap()[0] == dec_byte0(v0, v1));
        assert(spec_decode(s1).unwrap()[1] == dec_byte1(v1, v2));
        assert(spec_decode(s2).unwrap()[0] == dec_byte0(w0, w1));
        assert(spec_decode(s2).unwrap()[1] == dec_byte1(w1, w2));
        lemma_value_injective(s1[0], s2[0]);
        lemma_value_injective(s1[1], s2[1]);
        lemma_value_injective(s1[2], s2[2]);
        assert(s1 =~= s2);
    } else {
        let v0 = b64_value_of(s1[0]).unwrap();
        let v1 = b64_value_of(s1[1]).unwrap();
        let v2 = b64_value_of(s1[2]).unwrap();
        let v3 = b64_value_of(s1[3]).unwrap();
        let w0 = b64_value_of(s2[0]).unwrap();
        let w1 = b64_value_of(s2[1]).unwrap();
        let w2 = b64_value_of(s2[2]).unwrap();
        let w3 = b64_value_of(s2[3]).unwrap();
        lemma_value_bound(s1[0]);
        lemma_value_bound(s1[1]);
        lemma_value_bound(s1[2]);
        lemma_value_bound(s1[3]);
        lemma_value_bound(s2[0]);
        lemma_value_bound(s2[1]);
        lemma_value_bound(s2[2]);
        lemma_value_bound(s2[3]);
        lemma_group3_recover(v0, v1, v2, v3);
        lemma_group3_recover(w0, w1, w2, w3);
        let r1 = spec_decode(s1.skip(4)).unwrap();
        let r2 = spec_decode(s2.skip(4)).unwrap();
        let d1 = spec_decode(s1).unwrap();
        let d2 = spec_decode(s2).unwrap();
        assert(d1 == seq![dec_byte0(v0, v1), dec_byte1(v1, v2), dec_byte2(v2, v3)] + r1);
        assert(d2 == seq![dec_byte0(w0, w1), dec_byte1(w1, w2), dec_byte2(w2, w3)] + r2);
        assert(d1[0] == dec_byte0(v0, v1) && d1[1] == dec_byte1(v1, v2) && d1[2] == dec_byte2(
            v2,
            v3,
        ));
        assert(d2[0] == dec_byte0(w0, w1) && d2[1] == dec_byte1(w1, w2) && d2[2] == dec_byte2(
            w2,
            w3,
        ));
        lemma_value_injective(s1[0], s2[0]);
        lemma_value_injective(s1[1], s2[1]);
        lemma_value_injective(s1[2], s2[2]);
        lemma_value_injective(s1[3], s2[3]);
        assert(r1 =~= r2) by {
            lemma_decode_len(s1.skip(4));
            lemma_decode_len(s2.skip(4));
            assert(forall|i: int| 0 <= i < r1.len() ==> r1[i] == d1[i + 3] && r2[i] == d2[i + 3]);
        }
        lemma_decode_injective(s1.skip(4), s2.skip(4));
        assert forall|i: int| 0 <= i < s1.len() implies s1[i] == s2[i] by {
            if i >= 4 {
                assert(s1.skip(4)[i - 4] == s2.skip(4)[i - 4]);
            }
        }
        assert(s1 =~= s2);
    }
}

/// A sequence holding a byte outside the alphabet never decodes.
pub proof fn lemma_decode_invalid_char(s: Seq<u8>, i: int)
    requires
        0 <= i < s.len(),
        !is_b64_byte(s[i]),
    ensures
        spec_decode(s) is None,
    decreases s.len(),
{
    if s.len() >= 4 && i >= 4 {
        lemma_decode_invalid_char(s.skip(4), i - 4);
    }
}

/// Round trip: decoding an encoded sequence restores it exactly.
pub proof fn lemma_decode_encode(s: Seq<u8>)
    ensures
        spec_decode(spec_encode(s)) == Some(s),
    decreases s.len(),
{
    let e = spec_encode(s);
    if s.len() == 0 {
        assert(Seq::<u8>::empty() =~= s);
    } else if s.len() == 1 {
        let b0 = s[0];
        lemma_group1_bits(b0);
        lemma_char_value(b0 >> 2);
        lemma_char_value((b0 & 3) << 4);
        assert(spec_decode(e) == Some(seq![b0]));
        assert(seq![b0] =~= s);
    } else if s.len() == 2 {
        let b0 = s[0];
        let b1 = s[1];
        lemma_group2_bits(b0, b1);
        lemma_char_value(b0 >> 2);
        lemma_char_value(((b0 & 3) << 4) | (b1 >> 4));
        lemma_char_value((b1 & 15) << 2);
        assert(spec_decode(e) == Some(seq![b0, b1]));
        assert(seq![b0, b1] =~= s);
    } else {
        let b0 = s[0];
        let b1 = s[1];
        let b2 = s[2];
        lemma_group3_bits(b0, b1, b2);
        lemma_char_value(b0 >> 2);
        lemma_char_value(((b0 & 3) << 4) | (b1 >> 4));
        lemma_char_value(((b1 & 15) << 2) | (b2 >> 6));
        lemma_char_value(b2 & 63);
        lemma_decode_encode(s.skip(3));
        lemma_encode_len(s.skip(3));
        assert(e.len() >= 4);
        assert(e.skip(4) =~= spec_encode(s.skip(3)));
        assert(spec_decode(e.skip(4)) == Some(s.skip(3)));
        assert(spec_decode(e) == Some(seq![b0, b1, b2] + s.skip(3)));
        assert(seq![b0, b1, b2] + s.skip(3) =~= s);
    }
}

} // verus!
