//! Serializing packets onto a transmit queue.
//!
//! The transmitter checks the queue's free space once against the whole
//! frame length before writing anything, then writes the 6 header bytes and
//! the base64-encoded payload-plus-checksum section as one burst.

use crate::b64;
use crate::checksum;
use crate::error::{Error, PollError};
use crate::frame::{Frame, FrameHeader};
use crate::frame;
use vstd::arithmetic::div_mod::lemma_fundamental_div_mod;
use vstd::prelude::*;
use vstd::slice::slice_to_vec;

verus! {

/// A writable byte queue, owned exclusively by one transmitter.
///
/// The advertised space is a trustworthy upper bound: writes must succeed
/// while space remains. A write that fails after a burst has begun is a
/// contract violation by the transport, not a recoverable condition.
pub trait TransmitQueue {
    /// The bytes the queue has accepted so far, oldest first.
    spec fn sent(&self) -> Seq<u8>;

    /// How many further bytes the queue can accept.
    spec fn space(&self) -> int;

    /// The free space currently available.
    fn space_available(&self) -> (n: usize)
        ensures
            n as int == self.space(),
    ;

    /// Push one byte onto the queue.
    fn write(&mut self, byte: u8) -> (r: Result<(), u8>)
        ensures
            old(self).space() >= 1 ==> r is Ok,
            r is Ok ==> final(self).sent() == old(self).sent().push(byte) && final(self).space()
                == old(self).space() - 1,
    ;
}

/// Serializes (packet ID, payload) pairs into wire frames and pushes them to
/// a transmit queue.
pub struct Transmitter<TX> {
    tx: TX,
}

impl<TX: TransmitQueue> Transmitter<TX> {
    /// The bytes pushed to the underlying queue so far.
    pub closed spec fn sent(&self) -> Seq<u8> {
        self.tx.sent()
    }

    /// The free space left in the underlying queue.
    pub closed spec fn space(&self) -> int {
        self.tx.space()
    }

    /// Take exclusive ownership of a transmit queue.
    pub fn new(tx: TX) -> (r: Transmitter<TX>)
        ensures
            r.sent() == tx.sent(),
            r.space() == tx.space(),
    {
        Transmitter { tx }
    }

    /// Give the queue back, consuming the transmitter.
    pub fn release(self) -> (r: TX)
        ensures
            r.sent() == self.sent(),
            r.space() == self.space(),
    {
        self.tx
    }

    /// Push one byte, mapping a failed write to `QueueOverflow`. The space
    /// precondition makes the failure branch unreachable.
    fn write(&mut self, byte: u8) -> (r: Result<(), PollError>)
        requires
            old(self).space() >= 1,
        ensures
            r is Ok,
            final(self).sent() == old(self).sent().push(byte),
            final(self).space() == old(self).space() - 1,
    {
        match self.tx.write(byte) {
            Ok(_) => Ok(()),
            Err(_) => Err(PollError::Other(Error::QueueOverflow)),
        }
    }

    /// Serialize one packet and push its whole wire frame onto the queue.
    ///
    /// A header error is reported without writing anything; if the queue's
    /// free space cannot hold the whole frame, `WouldBlock` is reported
    /// without writing anything and the caller retries later.
    pub fn transmit(&mut self, packet_id: u16, data: &[u8]) -> (r: Result<(), PollError>)
        ensures
            match r {
                Ok(()) => packet_id <= frame::ID_MAX && frame::length_field_ok(data@.len() as int)
                    && old(self).space() >= 6 + frame::spec_length_field(data@.len() as int)
                    && final(self).sent() == old(self).sent() + frame::spec_wire_frame(packet_id, data@)
                    && final(self).space() == old(self).space() - (6 + frame::spec_length_field(
                    data@.len() as int,
                )),
                Err(PollError::WouldBlock) => packet_id <= frame::ID_MAX
                    && frame::length_field_ok(data@.len() as int) && old(self).space() < 6
                    + frame::spec_length_field(data@.len() as int) && final(self).sent() == old(self).sent() && final(self).space() == old(self).space(),
                Err(PollError::Other(e)) => ((e == Error::InvalidLength
                    && !frame::length_field_ok(data@.len() as int)) || (e == Error::InvalidID
                    && frame::length_field_ok(data@.len() as int) && packet_id > frame::ID_MAX))
                    && final(self).sent() == old(self).sent() && final(self).space() == old(self).space(),
            },
    {
        let header = match FrameHeader::new(packet_id, data.len()) {
            Ok(h) => h,
            Err(e) => return Err(PollError::Other(e)),
        };
        let ghost lf = frame::spec_length_field(data@.len() as int);
        let total = header.total_packet_len();
        if self.tx.space_available() < total {
            return Err(PollError::WouldBlock);
        }
        // Write the 6 header bytes.
        let hbytes = header.as_bytes();
        let hslice = hbytes.as_slice();
        let ghost lfu = (lf as u16);
        let mut k: usize = 0;
        while k < 6
            invariant
                k <= 6,
                0 <= lf,
                hslice@ == frame::spec_header_bytes(packet_id, lfu),
                old(self).space() >= 6 + lf,
                self.sent() == old(self).sent() + hslice@.take(k as int),
                self.space() == old(self).space() - k,
            decreases 6 - k,
        {
            match self.write(hslice[k]) {
                Ok(_) => (),
                Err(e) => return Err(e),
            };
            k += 1;
        }
        assert(hslice@.take(6) =~= frame::spec_header_bytes(packet_id, lfu));
        // A zero-length payload carries no checksum and no encoded section.
        if data.len() == 0 {
            assert(self.sent() =~= old(self).sent() + frame::spec_wire_frame(packet_id, data@));
            return Ok(());
        }
        // The checksum covers the whole raw payload, independent of how the
        // encoding is chunked.
        let computed = checksum::crc16(data);
        proof {
            lemma_fundamental_div_mod(computed as int, 256);
        }
        let crc_lo = (computed % 256) as u8;
        let crc_hi = (computed / 256) as u8;
        // The checksum is appended to the raw payload before encoding, so the
        // receiver's bounded tail decode recovers both the last payload bytes
        // and the checksum from one small group of characters.
        let mut combined = slice_to_vec(data);
        combined.push(crc_lo);
        combined.push(crc_hi);
        assert(combined@ =~= data@ + checksum::crc_le_bytes(data@));
        let encoded = b64::encode(combined.as_slice());
        proof {
            b64::lemma_encode_len(combined@);
            frame::lemma_length_field_is_encoded_len(data@.len() as int);
            assert(encoded@.len() == lf);
        }
        let mut j: usize = 0;
        while j < encoded.len()
            invariant
                j <= encoded@.len(),
                encoded@.len() == lf,
                encoded@ == frame::spec_encoded_section(data@),
                hslice@ == frame::spec_header_bytes(packet_id, lfu),
                old(self).space() >= 6 + lf,
                self.sent() == old(self).sent() + hslice@.take(6) + encoded@.take(j as int),
                self.space() == old(self).space() - 6 - j,
            decreases encoded@.len() - j,
        {
            match self.write(encoded[j]) {
                Ok(_) => (),
                Err(e) => return Err(e),
            };
            j += 1;
        }
        assert(self.sent() =~= old(self).sent() + frame::spec_wire_frame(packet_id, data@));
        Ok(())
    }

    /// Re-serialize an already validated frame: sugar for `transmit` on the
    /// frame's ID and payload bytes.
    pub fn transmit_frame<const N: usize>(&mut self, packet: &Frame<N>) -> (r: Result<
        (),
        PollError,
    >)
        ensures
            match r {
                Ok(()) => packet.spec_id() <= frame::ID_MAX && frame::length_field_ok(
                    packet.spec_payload().len() as int,
                ) && old(self).space() >= 6 + frame::spec_length_field(
                    packet.spec_payload().len() as int,
                ) && final(self).sent() == old(self).sent() + frame::spec_wire_frame(
                    packet.spec_id(),
                    packet.spec_payload(),
                ) && final(self).space() == old(self).space() - (6 + frame::spec_length_field(
                    packet.spec_payload().len() as int,
                )),
                Err(PollError::WouldBlock) => frame::length_field_ok(
                    packet.spec_payload().len() as int,
                ) && packet.spec_id() <= frame::ID_MAX && old(self).space() < 6
                    + frame::spec_length_field(packet.spec_payload().len() as int) && final(self).sent()
                    == old(self).sent() && final(self).space() == old(self).space(),
                Err(PollError::Other(e)) => ((e == Error::InvalidLength && !frame::length_field_ok(
                    packet.spec_payload().len() as int,
                )) || (e == Error::InvalidID && frame::length_field_ok(
                    packet.spec_payload().len() as int,
                ) && packet.spec_id() > frame::ID_MAX)) && final(self).sent() == old(self).sent()
                    && final(self).space() == old(self).space(),
            },
    {
        self.transmit(packet.id(), packet.bytes())
    }
}

} // verus!
