//! CRC-16 integrity checking over raw payload bytes.
//!
//! The checksum algorithm (the USB polynomial, reflected, initial and final
//! XOR value `0xFFFF`) is taken from the `crc` crate as a leaf primitive; its
//! result is a pure function of the input bytes, named here by an
//! uninterpreted spec function.

use vstd::prelude::*;

verus! {

/// The CRC-16 (USB variant) of a byte sequence, as the `crc` crate computes
/// it. The value depends on the bytes alone.
pub uninterp spec fn crc16_usb(data: Seq<u8>) -> u16;

/// The two bytes of a payload's checksum in wire order (little-endian).
pub open spec fn crc_le_bytes(payload: Seq<u8>) -> Seq<u8> {
    seq![(crc16_usb(payload) % 256) as u8, (crc16_usb(payload) / 256) as u8]
}

/// Relies on `crc::Crc::<u16>::checksum` with `crc::CRC_16_USB`: the checksum
/// is a deterministic function of the input bytes alone.
#[verifier::external_body]
pub(crate) fn crc16(data: &[u8]) -> (r: u16)
    ensures
        r == crc16_usb(data@),
{
    let crc = crc::Crc::<u16>::new(&crc::CRC_16_USB);
    crc.checksum(data)
}

} // verus!
