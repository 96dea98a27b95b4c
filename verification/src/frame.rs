//! Frame layout: the fixed 6-byte header, the length arithmetic that relates
//! raw payload size to on-wire encoded size, and the decoded, validated
//! in-memory representation of one packet.
//!
//! On the wire a frame is:
//!
//! ```text
//! byte 0:            START_OF_FRAME (0xF1)
//! bytes 1-2:         id, little-endian
//! bytes 3-4:         length, little-endian (count of base64 characters)
//! byte 5:            END_OF_HEADER (0xFF)
//! bytes 6..6+length: base64 characters encoding (payload ++ crc16, little-endian)
//! ```
//!
//! A zero-length payload is sent as the bare 6-byte header: no base64 section
//! and no checksum at all.

use crate::b64;
use crate::checksum;
use crate::error::Error;
use vstd::arithmetic::div_mod::{
    lemma_fundamental_div_mod, lemma_fundamental_div_mod_converse, lemma_hoist_over_denominator,
    lemma_mod_division_less_than_divisor,
};
use vstd::prelude::*;
use vstd::slice::{slice_subrange, slice_to_vec};

verus! {

/// Marker byte that opens every frame.
pub const START_OF_FRAME: u8 = 0xF1;

/// Marker byte that closes every header.
pub const END_OF_HEADER: u8 = 0xFF;

/// Largest representable packet ID: the top nibble is reserved so the high
/// byte can never equal the start-of-frame marker.
pub const ID_MAX: u16 = 0xF0FF;

/// Largest representable length field, bounded like the ID.
pub const LENGTH_MAX: u16 = 0xF0FF;

/// The fixed 6-byte wire record in front of every packet: a validated ID and
/// the count of base64 characters that follow the header.
#[derive(Debug)]
pub struct FrameHeader {
    id: u16,
    length: u16,
}

/// Ceiling division, with the convention that a zero numerator yields 1.
pub open spec fn spec_div_round_up(a: int, b: int) -> int {
    if a == 0 {
        1
    } else {
        (a - 1) / b + 1
    }
}

/// The length field computed for a raw payload of `payload_len` bytes: zero
/// for an empty payload, else the number of base64 characters needed for the
/// payload plus the 2-byte checksum.
pub open spec fn spec_length_field(payload_len: int) -> int {
    if payload_len == 0 {
        0
    } else {
        spec_div_round_up((payload_len + 2) * 8, 6)
    }
}

/// Whether a raw payload length is representable: the length computation must
/// not overflow and its result must fit the length field's range.
pub open spec fn length_field_ok(payload_len: int) -> bool {
    payload_len == 0 || (payload_len < usize::MAX as int / 8 - 2 && spec_length_field(payload_len)
        <= LENGTH_MAX as int)
}

/// The raw payload byte count recovered from a length field: the decoded byte
/// count of `length` base64 characters, minus the 2-byte checksum.
pub open spec fn spec_payload_len_of(length: int) -> int {
    let binary_len = length * 6 / 8;
    if binary_len >= 2 {
        binary_len - 2
    } else {
        0
    }
}

/// The 6 wire bytes of a header.
pub open spec fn spec_header_bytes(id: u16, length: u16) -> Seq<u8> {
    seq![
        START_OF_FRAME,
        (id % 256) as u8,
        (id / 256) as u8,
        (length % 256) as u8,
        (length / 256) as u8,
        END_OF_HEADER,
    ]
}

/// Parsing 6 wire bytes back into header fields, with the marker and range
/// checks in the order the parser applies them.
pub open spec fn spec_parse_header(s: Seq<u8>) -> Result<(u16, u16), Error> {
    if s.len() < 6 {
        Err(Error::TooFewBytes)
    } else if s.len() > 6 {
        Err(Error::TooManyBytes)
    } else if s[0] != START_OF_FRAME {
        Err(Error::InvalidHeader)
    } else if s[5] != END_OF_HEADER {
        Err(Error::InvalidHeader)
    } else {
        let id = (s[1] + 256 * s[2]) as u16;
        let length = (s[3] + 256 * s[4]) as u16;
        if id > ID_MAX {
            Err(Error::InvalidID)
        } else if length > LENGTH_MAX {
            Err(Error::InvalidLength)
        } else {
            Ok((id, length))
        }
    }
}

/// Ceiling division, with the convention that a zero numerator yields 1.
pub fn div_round_up(a: usize, b: usize) -> (r: usize)
    requires
        b >= 1,
    ensures
        r == spec_div_round_up(a as int, b as int),
{
    if a == 0 {
        return 1;
    }
    proof {
        lemma_fundamental_div_mod(a as int - 1, b as int);
        lemma_mod_division_less_than_divisor(a as int - 1, b as int);
    }
    (a - 1) / b + 1
}

/// Core arithmetic of the length field, for one unit of payload-plus-checksum
/// size `m >= 1`: the field equals the base64-encoded length of `m` bytes,
/// and decoding the field's worth of characters recovers exactly `m` bytes.
proof fn lemma_length_field_cases(m: int)
    requires
        m >= 1,
    ensures
        spec_div_round_up(8 * m, 6) == (4 * m + 2) / 3,
        spec_div_round_up(8 * m, 6) * 6 / 8 == m,
{
    let k = m / 3;
    let r = m % 3;
    lemma_fundamental_div_mod(m, 3);
    lemma_mod_division_less_than_divisor(m, 3);
    if r == 0 {
        lemma_fundamental_div_mod_converse(8 * m - 1, 6, 4 * k - 1, 5);
        lemma_fundamental_div_mod_converse(4 * m + 2, 3, 4 * k, 2);
        lemma_fundamental_div_mod_converse(4 * k * 6, 8, 3 * k, 0);
    } else if r == 1 {
        lemma_fundamental_div_mod_converse(8 * m - 1, 6, 4 * k + 1, 1);
        lemma_fundamental_div_mod_converse(4 * m + 2, 3, 4 * k + 2, 0);
        lemma_fundamental_div_mod_converse((4 * k + 2) * 6, 8, 3 * k + 1, 4);
    } else {
        lemma_fundamental_div_mod_converse(8 * m - 1, 6, 4 * k + 2, 3);
        lemma_fundamental_div_mod_converse(4 * m + 2, 3, 4 * k + 3, 1);
        lemma_fundamental_div_mod_converse((4 * k + 3) * 6, 8, 3 * k + 2, 2);
    }
}

/// Length inversion: recovering the payload length from a computed length
/// field gives back the original payload length, for every representable one.
pub proof fn lemma_length_field_inversion(payload_len: int)
    requires
        0 <= payload_len,
        length_field_ok(payload_len),
    ensures
        spec_payload_len_of(spec_length_field(payload_len)) == payload_len,
{
    if payload_len > 0 {
        lemma_length_field_cases(payload_len + 2);
        assert((payload_len + 2) * 8 == 8 * (payload_len + 2));
    }
}

/// The length field of a non-empty payload equals the number of characters
/// that base64-encoding the payload plus its 2-byte checksum produces.
pub proof fn lemma_length_field_is_encoded_len(payload_len: int)
    requires
        payload_len >= 1,
    ensures
        spec_length_field(payload_len) == (4 * (payload_len + 2) + 2) / 3,
{
    lemma_length_field_cases(payload_len + 2);
    assert((payload_len + 2) * 8 == 8 * (payload_len + 2));
}

/// Serializing a header and parsing the bytes back yields the same fields.
pub proof fn lemma_header_bytes_parse(id: u16, length: u16)
    requires
        id <= ID_MAX,
        length <= LENGTH_MAX,
    ensures
        spec_parse_header(spec_header_bytes(id, length)) == Ok::<(u16, u16), Error>((id, length)),
{
    lemma_fundamental_div_mod(id as int, 256);
    lemma_mod_division_less_than_divisor(id as int, 256);
    lemma_fundamental_div_mod(length as int, 256);
    lemma_mod_division_less_than_divisor(length as int, 256);
}

impl FrameHeader {
    /// The packet ID field.
    pub closed spec fn spec_id(&self) -> u16 {
        self.id
    }

    /// The length field: the byte count of the base64-encoded section.
    pub closed spec fn spec_length(&self) -> u16 {
        self.length
    }

    /// Both fields are within their representable ranges.
    pub open spec fn wf(&self) -> bool {
        self.spec_id() <= ID_MAX && self.spec_length() <= LENGTH_MAX
    }

    /// The byte count of the encoded section that follows the header.
    pub open spec fn spec_data_len(&self) -> int {
        self.spec_length() as int
    }

    /// The byte count of the whole wire frame, header included.
    pub open spec fn spec_total_len(&self) -> int {
        6 + self.spec_data_len()
    }

    /// The raw payload byte count this header declares.
    pub open spec fn spec_payload_len(&self) -> int {
        spec_payload_len_of(self.spec_length() as int)
    }

    /// Compute the length field for a raw payload length and validate both
    /// fields.
    pub fn new(id: u16, payload_length: usize) -> (r: Result<FrameHeader, Error>)
        ensures
            match r {
                Ok(h) => id <= ID_MAX && length_field_ok(payload_length as int) && h.spec_id()
                    == id && h.spec_length() as int == spec_length_field(payload_length as int)
                    && h.spec_payload_len() == payload_length,
                Err(e) => (e == Error::InvalidLength && !length_field_ok(payload_length as int))
                    || (e == Error::InvalidID && length_field_ok(payload_length as int) && id
                    > ID_MAX),
            },
    {
        let length = match Self::calculate_length_field(payload_length) {
            Ok(l) => l,
            Err(e) => return Err(e),
        };
        proof {
            lemma_length_field_inversion(payload_length as int);
        }
        Self::from_raw(id, length)
    }

    /// The length field for a raw payload length, or `InvalidLength` when the
    /// computation would overflow or exceed the field's range.
    pub(crate) fn calculate_length_field(payload_length: usize) -> (r: Result<u16, Error>)
        ensures
            match r {
                Ok(lf) => length_field_ok(payload_length as int) && lf as int == spec_length_field(
                    payload_length as int,
                ),
                Err(e) => e == Error::InvalidLength && !length_field_ok(payload_length as int),
            },
    {
        // No payload: there is no checksum and no base64 overhead.
        if payload_length == 0 {
            return Ok(0);
        }
        // Guard the multiplication below against overflow.
        if payload_length >= usize::MAX / 8 - 2 {
            return Err(Error::InvalidLength);
        }
        let packet_length = div_round_up((payload_length + 2) * 8, 6);
        if packet_length > LENGTH_MAX as usize {
            return Err(Error::InvalidLength);
        }
        Ok(packet_length as u16)
    }

    /// Validate raw field values, as when parsing from wire bytes.
    pub(crate) fn from_raw(id: u16, length: u16) -> (r: Result<FrameHeader, Error>)
        ensures
            match r {
                Ok(h) => id <= ID_MAX && length <= LENGTH_MAX && h.spec_id() == id
                    && h.spec_length() == length,
                Err(e) => (e == Error::InvalidID && id > ID_MAX) || (e == Error::InvalidLength
                    && id <= ID_MAX && length > LENGTH_MAX),
            },
    {
        if id > ID_MAX {
            return Err(Error::InvalidID);
        }
        if length > LENGTH_MAX {
            return Err(Error::InvalidLength);
        }
        Ok(FrameHeader { id, length })
    }

    /// The byte count of the encoded section that follows the header.
    pub fn data_len(&self) -> (r: usize)
        ensures
            r == self.spec_data_len(),
    {
        self.length as usize
    }

    /// The byte count of the whole wire frame, header included.
    pub fn total_packet_len(&self) -> (r: usize)
        ensures
            r == self.spec_total_len(),
    {
        6 + self.data_len()
    }

    /// The raw payload byte count this header declares: the inverse of the
    /// length computation in `new`.
    pub fn payload_len(&self) -> (r: usize)
        ensures
            r == self.spec_payload_len(),
    {
        // base64 to binary: 6 bits per character
        let binary_len = (self.length as usize) * 6 / 8;
        if binary_len >= 2 {
            // excluding the 2-byte checksum
            binary_len - 2
        } else {
            0
        }
    }

    /// Serialize to the 6-byte wire layout, consuming the header.
    pub fn as_bytes(self) -> (r: [u8; 6])
        ensures
            r@ == spec_header_bytes(self.spec_id(), self.spec_length()),
    {
        proof {
            lemma_mod_division_less_than_divisor(self.id as int, 256);
            lemma_mod_division_less_than_divisor(self.length as int, 256);
        }
        let r = [
            START_OF_FRAME,
            (self.id % 256) as u8,
            (self.id / 256) as u8,
            (self.length % 256) as u8,
            (self.length / 256) as u8,
            END_OF_HEADER,
        ];
        proof {
            assert(r@ =~= spec_header_bytes(self.spec_id(), self.spec_length()));
        }
        r
    }

    /// Parse a header from exactly 6 raw wire bytes.
    pub fn try_from_bytes(slice: &[u8]) -> (r: Result<FrameHeader, Error>)
        ensures
            match r {
                Ok(h) => spec_parse_header(slice@) == Ok::<(u16, u16), Error>(
                    (h.spec_id(), h.spec_length()),
                ) && h.wf(),
                Err(e) => spec_parse_header(slice@) == Err::<(u16, u16), Error>(e),
            },
    {
        if slice.len() < 6 {
            return Err(Error::TooFewBytes);
        }
        if slice.len() > 6 {
            return Err(Error::TooManyBytes);
        }
        if slice[0] != START_OF_FRAME {
            return Err(Error::InvalidHeader);
        }
        let id = slice[1] as u16 + 256 * (slice[2] as u16);
        let length = slice[3] as u16 + 256 * (slice[4] as u16);
        if slice[5] != END_OF_HEADER {
            return Err(Error::InvalidHeader);
        }
        Self::from_raw(id, length)
    }
}

/// Facts about the split offset used when decoding an encoded section of
/// `l >= 8` characters: the split lands on a whole number of 4-character
/// groups, leaves a bounded tail, and partitions the decoded byte count.
proof fn lemma_split_arith(l: int)
    requires
        8 <= l,
    ensures
        ({
            let split = ((l - 4) / 4) * 4;
            &&& 0 <= split <= l - 4
            &&& l - split <= 8
            &&& 3 * split / 4 == 3 * ((l - 4) / 4)
            &&& 3 * l / 4 == 3 * ((l - 4) / 4) + 3 * (l - split) / 4
            &&& l * 6 / 8 == 3 * l / 4
        }),
{
    let q = (l - 4) / 4;
    let split = 4 * q;
    lemma_fundamental_div_mod(l - 4, 4);
    lemma_mod_division_less_than_divisor(l - 4, 4);
    lemma_fundamental_div_mod_converse(3 * split, 4, 3 * q, 0);
    lemma_hoist_over_denominator(3 * (l - split), 3 * q, 4nat);
    lemma_fundamental_div_mod(3 * l, 4);
    lemma_mod_division_less_than_divisor(3 * l, 4);
    lemma_fundamental_div_mod_converse(6 * l, 8, 3 * l / 4, 2 * (3 * l % 4));
}

/// For an encoded section of any positive length, the header's payload-length
/// arithmetic `l * 6 / 8` agrees with the decoded byte count `3 * l / 4`.
proof fn lemma_small_arith(l: int)
    requires
        0 <= l,
    ensures
        l * 6 / 8 == 3 * l / 4,
{
    lemma_fundamental_div_mod(3 * l, 4);
    lemma_mod_division_less_than_divisor(3 * l, 4);
    lemma_fundamental_div_mod_converse(6 * l, 8, 3 * l / 4, 2 * (3 * l % 4));
}

/// One decoded, validated, integrity-checked packet: a header and its raw
/// payload, held in a buffer whose capacity bound `N` is chosen by the
/// caller at compile time and checked at construction, never resized.
#[derive(Debug)]
pub struct Frame<const N: usize> {
    header: FrameHeader,
    data: Vec<u8>,
}

/// Decoding the encoded section of a frame, given the header's length field,
/// the section's characters and the capacity bound of the destination:
/// everything before the split offset is decoded as whole 4-character groups
/// straight into the payload, the bounded tail after it holds the last
/// payload bytes together with the 2-byte checksum, and the checksum is
/// verified over the reassembled payload.
pub open spec fn spec_decode_frame_data(length: u16, chars: Seq<u8>, cap: int) -> Result<
    Seq<u8>,
    Error,
> {
    if spec_payload_len_of(length as int) > cap {
        Err(Error::TooManyBytes)
    } else if chars.len() < length {
        Err(Error::TooFewBytes)
    } else if chars.len() > length {
        Err(Error::TooManyBytes)
    } else if length == 0 {
        Ok(Seq::empty())
    } else {
        let l = length as int;
        let split = if l < 8 {
            0int
        } else {
            ((l - 4) / 4) * 4
        };
        match (b64::spec_decode(chars.take(split)), b64::spec_decode(chars.skip(split))) {
            (Some(bulk), Some(tail)) => {
                if tail.len() < 2 {
                    Err(Error::TooFewBytes)
                } else {
                    let payload = bulk + tail.take(tail.len() - 2);
                    let sent_crc = tail[tail.len() - 2] as int + 256 * (tail[
                        tail.len() - 1
                    ] as int);
                    if sent_crc == checksum::crc16_usb(payload) as int {
                        Ok(payload)
                    } else {
                        Err(Error::InvalidCRC)
                    }
                }
            },
            _ => Err(Error::InvalidBase64),
        }
    }
}

/// Decoding a whole wire frame: a buffer too short for a header is rejected,
/// else the 6-byte header is parsed and the encoded section after it decoded.
pub open spec fn spec_frame_decode(bytes: Seq<u8>, cap: int) -> Result<(u16, Seq<u8>), Error> {
    if bytes.len() < 6 {
        Err(Error::TooFewBytes)
    } else {
        match spec_parse_header(bytes.take(6)) {
            Ok((id, length)) => match spec_decode_frame_data(length, bytes.skip(6), cap) {
                Ok(p) => Ok((id, p)),
                Err(e) => Err(e),
            },
            Err(e) => Err(e),
        }
    }
}

/// The encoded section transmitted for a payload: nothing for an empty
/// payload, else the base64 encoding of the payload with its checksum
/// appended.
pub open spec fn spec_encoded_section(payload: Seq<u8>) -> Seq<u8> {
    if payload.len() == 0 {
        Seq::empty()
    } else {
        b64::spec_encode(payload + checksum::crc_le_bytes(payload))
    }
}

/// The complete wire frame for a packet: the 6 header bytes followed by the
/// encoded section.
pub open spec fn spec_wire_frame(id: u16, payload: Seq<u8>) -> Seq<u8> {
    spec_header_bytes(id, spec_length_field(payload.len() as int) as u16) + spec_encoded_section(
        payload,
    )
}

/// The encoded section of a representable payload is exactly as long as its
/// computed length field says, and decodes back to that payload, under any
/// capacity bound that admits it.
pub proof fn lemma_section_decode(payload: Seq<u8>, cap: int)
    requires
        length_field_ok(payload.len() as int),
        payload.len() <= cap,
    ensures
        spec_encoded_section(payload).len() == spec_length_field(payload.len() as int),
        spec_decode_frame_data(
            spec_length_field(payload.len() as int) as u16,
            spec_encoded_section(payload),
            cap,
        ) == Ok::<Seq<u8>, Error>(payload),
{
    let n = payload.len() as int;
    let lf_int = spec_length_field(n);
    lemma_length_field_inversion(n);
    assert(0 <= lf_int <= LENGTH_MAX);
    let lf = lf_int as u16;
    let section = spec_encoded_section(payload);
    if n == 0 {
        assert(section.len() == 0);
        assert(spec_decode_frame_data(lf, section, cap) == Ok::<Seq<u8>, Error>(Seq::empty()));
        assert(payload =~= Seq::<u8>::empty());
    } else {
        let m = n + 2;
        let c = payload + checksum::crc_le_bytes(payload);
        assert(c.len() == m);
        b64::lemma_encode_len(c);
        lemma_length_field_is_encoded_len(n);
        assert(section == b64::spec_encode(c));
        assert(section.len() == lf_int);
        let crc = checksum::crc16_usb(payload);
        lemma_fundamental_div_mod(crc as int, 256);
        lemma_mod_division_less_than_divisor(crc as int, 256);
        assert(c[m - 2] == (crc % 256) as u8 && c[m - 1] == (crc / 256) as u8);
        if lf_int < 8 {
            // the whole section is one bounded tail
            assert(section.take(0) =~= Seq::<u8>::empty());
            assert(section.skip(0) =~= section);
            b64::lemma_decode_encode(c);
            assert(b64::spec_decode(section) == Some(c));
            assert(Seq::<u8>::empty() + c.take(m - 2) =~= payload);
            assert(spec_decode_frame_data(lf, section, cap) == Ok::<Seq<u8>, Error>(payload));
        } else {
            let l = lf_int;
            let q = (l - 4) / 4;
            let split = 4 * q;
            lemma_split_arith(l);
            assert(split == ((l - 4) / 4) * 4);
            // the split corresponds to the first 3*q payload bytes
            lemma_fundamental_div_mod(l - 4, 4);
            lemma_mod_division_less_than_divisor(l - 4, 4);
            assert(3 * l <= 4 * m + 2) by {
                lemma_fundamental_div_mod(4 * m + 2, 3);
                lemma_mod_division_less_than_divisor(4 * m + 2, 3);
            }
            assert(3 * q <= m - 2);
            b64::lemma_encode_append(c, q);
            let front = c.take(3 * q);
            let back = c.skip(3 * q);
            b64::lemma_encode_len(front);
            assert(b64::spec_encode(front).len() == split) by {
                lemma_fundamental_div_mod_converse(4 * (3 * q) + 2, 3, 4 * q, 2);
            }
            assert(section.take(split) =~= b64::spec_encode(front));
            assert(section.skip(split) =~= b64::spec_encode(back));
            b64::lemma_decode_encode(front);
            b64::lemma_decode_encode(back);
            assert(back.len() >= 2);
            assert(front + back.take(back.len() - 2) =~= payload);
            assert(back[back.len() - 2] == c[m - 2] && back[back.len() - 1] == c[m - 1]);
            assert(spec_decode_frame_data(lf, section, cap) == Ok::<Seq<u8>, Error>(payload));
        }
    }
}

/// Round trip: the wire frame built from a representable ID and payload
/// decodes back to exactly that ID and payload, under any capacity bound
/// that admits the payload.
pub proof fn lemma_round_trip(id: u16, payload: Seq<u8>, cap: int)
    requires
        id <= ID_MAX,
        length_field_ok(payload.len() as int),
        payload.len() <= cap,
    ensures
        spec_frame_decode(spec_wire_frame(id, payload), cap) == Ok::<(u16, Seq<u8>), Error>(
            (id, payload),
        ),
{
    let n = payload.len() as int;
    let lf_int = spec_length_field(n);
    lemma_length_field_inversion(n);
    let lf = lf_int as u16;
    let w = spec_wire_frame(id, payload);
    let hb = spec_header_bytes(id, lf);
    let section = spec_encoded_section(payload);
    assert(w.take(6) =~= hb);
    assert(w.skip(6) =~= section);
    lemma_header_bytes_parse(id, lf);
    lemma_section_decode(payload, cap);
}

/// Corruption detection, decoding side: no encoded section other than the
/// true one can decode and verify to the original payload. Together with the
/// checksum test inside `spec_decode_frame_data`, a corrupted section is
/// accepted only if it decodes to a *different* payload whose recomputed
/// checksum happens to collide with the altered stored one.
pub proof fn lemma_altered_section_rejected(payload: Seq<u8>, s2: Seq<u8>, cap: int)
    requires
        length_field_ok(payload.len() as int),
        payload.len() <= cap,
        s2.len() == spec_length_field(payload.len() as int),
        s2 != spec_encoded_section(payload),
    ensures
        spec_decode_frame_data(
            spec_length_field(payload.len() as int) as u16,
            s2,
            cap,
        ) != Ok::<Seq<u8>, Error>(payload),
{
    let n = payload.len() as int;
    let lf_int = spec_length_field(n);
    lemma_length_field_inversion(n);
    let lfu = lf_int as u16;
    let section = spec_encoded_section(payload);
    lemma_section_decode(payload, cap);
    if n == 0 {
        assert(s2 =~= section);
    } else if spec_decode_frame_data(lfu, s2, cap) == Ok::<Seq<u8>, Error>(payload) {
        let l = lf_int;
        let split = if l < 8 {
            0int
        } else {
            ((l - 4) / 4) * 4
        };
        if l >= 8 {
            lemma_split_arith(l);
        }
        let b_alt = b64::spec_decode(s2.take(split)).unwrap();
        let t_alt = b64::spec_decode(s2.skip(split)).unwrap();
        let b_true = b64::spec_decode(section.take(split)).unwrap();
        let t_true = b64::spec_decode(section.skip(split)).unwrap();
        b64::lemma_decode_len(s2.take(split));
        b64::lemma_decode_len(s2.skip(split));
        b64::lemma_decode_len(section.take(split));
        b64::lemma_decode_len(section.skip(split));
        assert(b_alt.len() == b_true.len());
        assert(t_alt.len() == t_true.len());
        assert(payload == b_alt + t_alt.take(t_alt.len() - 2));
        assert(payload == b_true + t_true.take(t_true.len() - 2));
        assert(b_alt =~= b_true) by {
            assert(forall|i: int|
                0 <= i < b_alt.len() ==> b_alt[i] == payload[i] && b_true[i] == payload[i]);
        }
        // Both stored checksums equal the payload's checksum, so the two
        // little-endian byte pairs coincide.
        let c = checksum::crc16_usb(payload) as int;
        assert(t_alt[t_alt.len() - 2] as int + 256 * (t_alt[t_alt.len() - 1] as int) == c);
        assert(t_true[t_true.len() - 2] as int + 256 * (t_true[t_true.len() - 1] as int) == c);
        assert(t_alt =~= t_true) by {
            assert(forall|i: int|
                0 <= i < t_alt.len() - 2 ==> t_alt[i] == payload[b_alt.len() + i] && t_true[i]
                    == payload[b_true.len() + i]);
        }
        b64::lemma_decode_injective(s2.take(split), section.take(split));
        b64::lemma_decode_injective(s2.skip(split), section.skip(split));
        assert forall|i: int| 0 <= i < s2.len() implies s2[i] == section[i] by {
            if i < split {
                assert(s2.take(split)[i] == section.take(split)[i]);
            } else {
                assert(s2.skip(split)[i - split] == section.skip(split)[i - split]);
            }
        }
        assert(s2 =~= section);
    }
}

/// Zero-length special case: an empty payload is sent as exactly the 6
/// header bytes, with no base64 section and no checksum, and those 6 bytes
/// decode back to an empty frame under any capacity bound.
pub proof fn lemma_zero_length_frame(id: u16, cap: int)
    requires
        id <= ID_MAX,
        cap >= 0,
    ensures
        spec_wire_frame(id, Seq::empty()).len() == 6,
        spec_frame_decode(spec_wire_frame(id, Seq::empty()), cap) == Ok::<(u16, Seq<u8>), Error>(
            (id, Seq::empty()),
        ),
{
    lemma_round_trip(id, Seq::empty(), cap);
}

impl<const N: usize> Frame<N> {
    /// The packet ID.
    pub closed spec fn spec_id(&self) -> u16 {
        self.header.spec_id()
    }

    /// The raw payload bytes.
    pub closed spec fn spec_payload(&self) -> Seq<u8> {
        self.data@
    }

    /// The invariant of every frame: its payload fits the capacity bound.
    pub open spec fn wf(&self) -> bool {
        self.spec_payload().len() <= N
    }

    /// Build a frame for transmission from an ID and a payload slice.
    pub fn new(id: u16, payload: &[u8]) -> (r: Result<Frame<N>, Error>)
        requires
            payload@.len() <= N,
        ensures
            match r {
                Ok(f) => id <= ID_MAX && length_field_ok(payload@.len() as int) && f.spec_id()
                    == id && f.spec_payload() == payload@ && f.wf(),
                Err(e) => (e == Error::InvalidLength && !length_field_ok(payload@.len() as int))
                    || (e == Error::InvalidID && length_field_ok(payload@.len() as int) && id
                    > ID_MAX),
            },
    {
        let header = match FrameHeader::new(id, payload.len()) {
            Ok(h) => h,
            Err(e) => return Err(e),
        };
        let data = slice_to_vec(payload);
        Ok(Frame { header, data })
    }

    /// The packet ID.
    pub fn id(&self) -> (r: u16)
        ensures
            r == self.spec_id(),
    {
        self.header.id
    }

    /// The raw payload bytes.
    pub fn bytes(&self) -> (r: &[u8])
        ensures
            r@ == self.spec_payload(),
    {
        self.data.as_slice()
    }

    /// Decode and verify a frame from a validated header and exactly the
    /// declared count of encoded characters.
    pub fn try_from_encoded(header: FrameHeader, b64_data: &[u8]) -> (r: Result<Frame<N>, Error>)
        ensures
            match r {
                Ok(f) => spec_decode_frame_data(header.spec_length(), b64_data@, N as int)
                    == Ok::<Seq<u8>, Error>(f.spec_payload()) && f.spec_id() == header.spec_id()
                    && f.wf(),
                Err(e) => spec_decode_frame_data(header.spec_length(), b64_data@, N as int)
                    == Err::<Seq<u8>, Error>(e),
            },
    {
        let payload_len = header.payload_len();
        // The destination must be able to hold the declared payload; never
        // attempt a partial decode.
        if N < payload_len {
            return Err(Error::TooManyBytes);
        }
        let b64_len = header.data_len();
        if b64_data.len() < b64_len {
            return Err(Error::TooFewBytes);
        }
        if b64_data.len() > b64_len {
            return Err(Error::TooManyBytes);
        }
        // No data to decode: the frame is complete and carries no checksum.
        if b64_len == 0 {
            return Ok(Frame { header, data: Vec::new() });
        }
        let ghost l = header.spec_length() as int;
        let ghost gsplit: int = if l < 8 {
            0int
        } else {
            ((l - 4) / 4) * 4
        };
        proof {
            if l >= 8 {
                lemma_split_arith(l);
            }
        }
        // Every byte of the encoded section must be an alphabet character;
        // the `=` padding character in particular is not part of the wire
        // format.
        let mut i: usize = 0;
        while i < b64_data.len()
            invariant
                i <= b64_data@.len(),
                0 <= gsplit <= b64_data@.len(),
                l == header.spec_length() as int,
                l == b64_data@.len(),
                l != 0,
                gsplit == if l < 8 { 0int } else { ((l - 4) / 4) * 4 },
                spec_payload_len_of(l) <= N as int,
                forall|k: int| 0 <= k < i ==> b64::is_b64_byte(b64_data@[k]),
            decreases b64_data@.len() - i,
        {
            if !b64::is_alphabet_byte(b64_data[i]) {
                proof {
                    if i < gsplit {
                        b64::lemma_decode_invalid_char(b64_data@.take(gsplit), i as int);
                    } else {
                        b64::lemma_decode_invalid_char(
                            b64_data@.skip(gsplit),
                            i as int - gsplit,
                        );
                    }
                }
                return Err(Error::InvalidBase64);
            }
            i += 1;
        }
        // The trailing checksum was encoded jointly with the tail of the
        // payload, so the last few characters are decoded into a small
        // scratch buffer rather than the payload itself: everything before
        // the split is a whole number of 4-character groups and lands on a
        // byte boundary.
        let split: usize = if b64_len < 8 {
            0
        } else {
            ((b64_len - 4) / 4) * 4
        };
        let bulk_part = slice_subrange(b64_data, 0, split);
        let mut data = match b64::decode(bulk_part) {
            Some(v) => v,
            None => return Err(Error::InvalidBase64),
        };
        let tail_part = slice_subrange(b64_data, split, b64_len);
        let tail = match b64::decode(tail_part) {
            Some(v) => v,
            None => return Err(Error::InvalidBase64),
        };
        // The tail must at least hold the checksum.
        if tail.len() < 2 {
            return Err(Error::TooFewBytes);
        }
        proof {
            b64::lemma_decode_len(bulk_part@);
            b64::lemma_decode_len(tail_part@);
            lemma_small_arith(l);
        }
        let tail_data_len = tail.len() - 2;
        let ghost bulk_bytes = data@;
        let mut j: usize = 0;
        while j < tail_data_len
            invariant
                j <= tail_data_len,
                tail_data_len == tail@.len() - 2,
                data@ == bulk_bytes + tail@.take(j as int),
            decreases tail_data_len - j,
        {
            data.push(tail[j]);
            j += 1;
        }
        assert(data@ =~= bulk_bytes + tail@.take(tail_data_len as int));
        // The reassembled payload is exactly as long as the header declared.
        assert(data@.len() == payload_len);
        // The last 2 tail bytes are the little-endian checksum; recompute it
        // over the payload and compare.
        let computed = checksum::crc16(data.as_slice());
        let sent_lo = tail[tail_data_len];
        let sent_hi = tail[tail_data_len + 1];
        let sent = sent_lo as u16 + 256 * (sent_hi as u16);
        if sent != computed {
            return Err(Error::InvalidCRC);
        }
        Ok(Frame { header, data })
    }

    /// Decode and verify a frame from a complete in-memory wire frame:
    /// 6 header bytes followed by the encoded section.
    pub fn try_from_bytes(slice: &[u8]) -> (r: Result<Frame<N>, Error>)
        ensures
            match r {
                Ok(f) => spec_frame_decode(slice@, N as int) == Ok::<(u16, Seq<u8>), Error>(
                    (f.spec_id(), f.spec_payload()),
                ) && f.wf(),
                Err(e) => spec_frame_decode(slice@, N as int) == Err::<(u16, Seq<u8>), Error>(e),
            },
    {
        if slice.len() < 6 {
            return Err(Error::TooFewBytes);
        }
        let header_part = slice_subrange(slice, 0, 6);
        proof {
            assert(header_part@ =~= slice@.take(6));
        }
        let header = match FrameHeader::try_from_bytes(header_part) {
            Ok(h) => h,
            Err(e) => return Err(e),
        };
        let b64_part = slice_subrange(slice, 6, slice.len());
        proof {
            assert(b64_part@ =~= slice@.skip(6));
        }
        Self::try_from_encoded(header, b64_part)
    }
}

} // verus!
