//! The receive-side resynchronization state machine.
//!
//! One call to `receive` is one attempt to produce one frame from the front
//! of a peekable byte queue. Bytes that cannot open a valid frame are
//! discarded one at a time and counted, so that a caller polling through an
//! arbitrarily long run of garbage eventually recovers byte alignment once a
//! valid frame appears.

use crate::error::{Error, PollError};
use crate::frame::{self, Frame, FrameHeader, START_OF_FRAME};
use vstd::arithmetic::div_mod::{lemma_add_mod_noop, lemma_mod_self_0, lemma_small_mod};
use vstd::prelude::*;

verus! {

/// A peekable, flushable byte queue, owned exclusively by one receiver.
///
/// Reads are non-destructive: bytes leave the queue only through `flush`,
/// after a decision about them is final.
pub trait ReceiveQueue {
    /// The bytes currently buffered, in arrival order.
    spec fn contents(&self) -> Seq<u8>;

    /// How many bytes are currently buffered.
    fn bytes_available(&self) -> (n: usize)
        ensures
            n == self.contents().len(),
    ;

    /// Read the byte at a logical offset from the read cursor, without
    /// consuming it; `None` past the end of the buffered bytes.
    fn peek_at(&self, offset: usize) -> (r: Option<u8>)
        ensures
            r == if (offset as int) < self.contents().len() {
                Some(self.contents()[offset as int])
            } else {
                None::<u8>
            },
    ;

    /// Advance the read cursor by `n_bytes`, discarding those bytes.
    fn flush(&mut self, n_bytes: usize)
        requires
            n_bytes <= old(self).contents().len(),
        ensures
            final(self).contents() == old(self).contents().skip(n_bytes as int),
    ;
}

/// The length of the run of bytes in front of the queue that cannot open a
/// frame: everything before the first start-of-frame marker.
pub open spec fn junk_len(q: Seq<u8>) -> int
    decreases q.len(),
{
    if q.len() == 0 {
        0
    } else if q[0] == START_OF_FRAME {
        0
    } else {
        1 + junk_len(q.skip(1))
    }
}

/// The junk run is a prefix of non-marker bytes ending at the queue's end or
/// at the first marker.
pub proof fn lemma_junk_len(q: Seq<u8>)
    ensures
        0 <= junk_len(q) <= q.len(),
        forall|i: int| 0 <= i < junk_len(q) ==> q[i] != START_OF_FRAME,
        junk_len(q) < q.len() ==> q[junk_len(q)] == START_OF_FRAME,
    decreases q.len(),
{
    if q.len() > 0 && q[0] != START_OF_FRAME {
        lemma_junk_len(q.skip(1));
        assert forall|i: int| 0 <= i < junk_len(q) implies q[i] != START_OF_FRAME by {
            if i > 0 {
                assert(q.skip(1)[i - 1] != START_OF_FRAME);
            }
        }
    }
}

/// Any prefix of non-marker bytes that ends at the queue's end or at a
/// marker is exactly the junk run.
pub proof fn lemma_junk_len_is(q: Seq<u8>, k: int)
    requires
        0 <= k <= q.len(),
        forall|i: int| 0 <= i < k ==> q[i] != START_OF_FRAME,
        k < q.len() ==> q[k] == START_OF_FRAME,
    ensures
        junk_len(q) == k,
    decreases k,
{
    if k > 0 {
        assert(q[0] != START_OF_FRAME);
        assert forall|i: int| 0 <= i < k - 1 implies q.skip(1)[i] != START_OF_FRAME by {
            assert(q[i + 1] != START_OF_FRAME);
        }
        lemma_junk_len_is(q.skip(1), k - 1);
    }
}

/// What one `receive` call does to a queue holding `q`, for a destination
/// capacity `cap`: the result, the count of bytes consumed from the queue,
/// and the count of bytes recorded as skipped.
///
/// Junk in front of the first marker is always consumed and counted. Then:
/// too few bytes for a header or for the declared frame is `WouldBlock` with
/// nothing further consumed; a header that fails to parse, a frame too large
/// for the capacity, and a section that fails to decode or verify each
/// consume and count exactly 1 further byte; a valid frame is consumed
/// whole and counts no further byte.
pub open spec fn spec_receive_step(q: Seq<u8>, cap: int) -> (Result<(u16, Seq<u8>), PollError>, int, int) {
    let j = junk_len(q);
    let q1 = q.skip(j);
    if q1.len() < 6 {
        (Err(PollError::WouldBlock), j, j)
    } else {
        match frame::spec_parse_header(q1.take(6)) {
            Err(e) => (Err(PollError::Other(e)), j + 1, j + 1),
            Ok((id, length)) => if frame::spec_payload_len_of(length as int) > cap {
                (Err(PollError::Other(Error::TooManyBytes)), j + 1, j + 1)
            } else if q1.len() < 6 + length {
                (Err(PollError::WouldBlock), j, j)
            } else {
                match frame::spec_decode_frame_data(
                    length,
                    q1.subrange(6, 6 + length as int),
                    cap,
                ) {
                    Ok(p) => (Ok((id, p)), j + 6 + length, j),
                    Err(e) => (Err(PollError::Other(e)), j + 1, j + 1),
                }
            },
        }
    }
}

/// A resynchronizing frame receiver owning a receive queue, plus a counter
/// of the bytes it has discarded.
pub struct Receiver<RX> {
    bytes_skipped: u32,
    rx: RX,
}

impl<RX: ReceiveQueue> Receiver<RX> {
    /// The owned queue itself.
    pub closed spec fn spec_rx(&self) -> RX {
        self.rx
    }

    /// The bytes currently buffered in the owned queue. Published as the
    /// owned queue's contents, so a caller that reaches the queue through
    /// `queue_mut` can re-establish what the receiver will see.
    pub open spec fn queue(&self) -> Seq<u8> {
        self.spec_rx().contents()
    }

    /// The skip counter.
    pub closed spec fn skipped(&self) -> u32 {
        self.bytes_skipped
    }

    /// Take exclusive ownership of a receive queue.
    pub fn new(rx: RX) -> (r: Receiver<RX>)
        ensures
            r.queue() == rx.contents(),
            r.skipped() == 0,
    {
        Receiver { rx, bytes_skipped: 0 }
    }

    /// Total count of incoming bytes that were discarded.
    ///
    /// The receiver only discards bytes that cannot form a valid frame, as
    /// happens when recovering after a connection loss, a corrupt packet or
    /// a hot-plug event. Like a packet-loss figure, a substantial count may
    /// indicate bad link quality. The counter wraps at its width.
    pub fn bytes_skipped(&self) -> (r: u32)
        ensures
            r == self.skipped(),
    {
        self.bytes_skipped
    }

    /// Mutable access to the owned queue, for the embedding application to
    /// deliver newly arrived bytes between polls.
    pub fn queue_mut(&mut self) -> (q: &mut RX)
        ensures
            *q == old(self).spec_rx(),
            final(self).spec_rx() == *final(q),
            final(self).skipped() == old(self).skipped(),
    {
        &mut self.rx
    }

    /// Read `n` bytes non-destructively, starting at a logical offset that
    /// the caller has checked against the available count.
    fn peek_bytes(&self, offset: usize, n: usize) -> (r: Result<Vec<u8>, Error>)
        requires
            offset + n <= self.queue().len(),
            offset + n <= usize::MAX,
        ensures
            match r {
                Ok(v) => v@ == self.queue().subrange(offset as int, offset as int + n as int),
                Err(_) => false,
            },
    {
        let mut result: Vec<u8> = Vec::new();
        let mut i: usize = 0;
        while i < n
            invariant
                i <= n,
                offset + n <= self.queue().len(),
                offset + n <= usize::MAX,
                result@ == self.queue().subrange(offset as int, offset as int + i as int),
            decreases n - i,
        {
            match self.rx.peek_at(offset + i) {
                Some(byte) => {
                    result.push(byte);
                    proof {
                        assert(result@ =~= self.queue().subrange(
                            offset as int,
                            offset as int + i as int + 1,
                        ));
                    }
                },
                None => {
                    // Defensive: unreachable while the caller's offset check
                    // holds, per the queue contract.
                    return Err(Error::QueueUnderflow);
                },
            }
            i += 1;
        }
        Ok(result)
    }

    /// Discard one byte as a resynchronization action and count it.
    pub(crate) fn skip_byte(&mut self)
        requires
            old(self).queue().len() >= 1,
        ensures
            final(self).queue() == old(self).queue().skip(1),
            final(self).skipped() as int == (old(self).skipped() as int + 1) % 0x1_0000_0000,
    {
        self.rx.flush(1);
        proof {
            if self.bytes_skipped == u32::MAX {
                lemma_mod_self_0(0x1_0000_0000);
            } else {
                lemma_small_mod((self.bytes_skipped + 1) as nat, 0x1_0000_0000);
            }
        }
        self.bytes_skipped = self.bytes_skipped.wrapping_add(1);
    }

    /// Hunt for a start-of-frame marker, discarding bytes in front of it,
    /// then parse a header from the 6 bytes at the front without consuming
    /// them. On a parse failure, discard exactly 1 byte (breaking the false
    /// marker) before reporting the error.
    fn rx_header(&mut self) -> (r: Result<FrameHeader, PollError>)
        ensures
            ({
                let q0 = old(self).queue();
                let j = junk_len(q0);
                let q1 = q0.skip(j);
                match r {
                    Ok(h) => q1.len() >= 6 && frame::spec_parse_header(q1.take(6)) == Ok::<
                        (u16, u16),
                        Error,
                    >((h.spec_id(), h.spec_length())) && final(self).queue() == q1
                        && final(self).skipped() as int == (old(self).skipped() as int + j)
                        % 0x1_0000_0000,
                    Err(PollError::WouldBlock) => q1.len() < 6 && final(self).queue() == q1
                        && final(self).skipped() as int == (old(self).skipped() as int + j)
                        % 0x1_0000_0000,
                    Err(PollError::Other(e)) => q1.len() >= 6 && frame::spec_parse_header(
                        q1.take(6),
                    ) == Err::<(u16, u16), Error>(e) && final(self).queue() == q1.skip(1)
                        && final(self).skipped() as int == (old(self).skipped() as int + j + 1)
                        % 0x1_0000_0000,
                }
            }),
    {
        let ghost q0 = old(self).queue();
        let ghost s0 = old(self).skipped() as int;
        let ghost j = junk_len(q0);
        proof {
            lemma_junk_len(q0);
            lemma_small_mod(s0 as nat, 0x1_0000_0000);
        }
        let ghost mut k: int = 0;
        // Skip bytes until a start-of-frame marker is at the front.
        loop
            invariant
                q0 == old(self).queue(),
                s0 == old(self).skipped() as int,
                0 <= s0,
                0 <= k <= j,
                j == junk_len(q0),
                0 <= j <= q0.len(),
                forall|i: int| 0 <= i < j ==> q0[i] != START_OF_FRAME,
                j < q0.len() ==> q0[j] == START_OF_FRAME,
                self.queue() == q0.skip(k),
                self.skipped() as int == (s0 + k) % 0x1_0000_0000,
            ensures
                k == j,
                self.queue() == q0.skip(j),
                self.queue().len() > 0,
                self.skipped() as int == (s0 + j) % 0x1_0000_0000,
            decreases q0.len() - k,
        {
            match self.rx.peek_at(0) {
                None => {
                    // The queue ran out before a marker was found: all junk
                    // is already discarded, the rest may still arrive.
                    proof {
                        assert(q0.skip(k).len() == 0);
                        assert(k == j);
                    }
                    return Err(PollError::WouldBlock);
                },
                Some(byte) => {
                    if byte == START_OF_FRAME {
                        proof {
                            assert(q0.skip(k)[0] == q0[k]);
                            assert(k == j);
                        }
                        break;
                    }
                    proof {
                        assert(q0.skip(k)[0] == q0[k]);
                        assert(k < j);
                        lemma_mod_increment(s0, k);
                    }
                    self.skip_byte();
                    proof {
                        assert(q0.skip(k).skip(1) =~= q0.skip(k + 1));
                        k = k + 1;
                    }
                },
            }
        }
        // Wait until enough bytes are buffered to hold a whole header.
        if self.rx.bytes_available() < 6 {
            return Err(PollError::WouldBlock);
        }
        // Parse the header from a non-destructive read of the front bytes.
        let header_bytes = match self.peek_bytes(0, 6) {
            Ok(v) => v,
            Err(e) => return Err(PollError::Other(e)),
        };
        proof {
            assert(header_bytes@ =~= q0.skip(j).take(6));
        }
        match FrameHeader::try_from_bytes(header_bytes.as_slice()) {
            Ok(header) => Ok(header),
            Err(e) => {
                // The marker opened no valid header: discard it and let the
                // caller retry one byte further on.
                proof {
                    lemma_mod_increment(s0, j);
                }
                self.skip_byte();
                Err(PollError::Other(e))
            },
        }
    }

    /// One attempt to produce one frame from the front of the queue, exactly
    /// as `spec_receive_step` describes: hunt for a marker, await and parse
    /// a header, check the destination capacity, await the whole frame, then
    /// decode and verify it. Every byte found unusable is discarded and
    /// counted; arrived-but-incomplete data is left untouched for the next
    /// poll.
    pub fn receive<const N: usize>(&mut self) -> (r: Result<Frame<N>, PollError>)
        ensures
            ({
                let (res, consumed, skipped) = spec_receive_step(old(self).queue(), N as int);
                &&& final(self).queue() == old(self).queue().skip(consumed)
                &&& final(self).skipped() as int == (old(self).skipped() as int + skipped)
                    % 0x1_0000_0000
                &&& match (r, res) {
                    (Ok(f), Ok((id, p))) => f.spec_id() == id && f.spec_payload() == p && f.wf(),
                    (Err(e1), Err(e2)) => e1 == e2,
                    _ => false,
                }
            }),
    {
        let ghost q0 = old(self).queue();
        let ghost s0 = old(self).skipped() as int;
        let ghost j = junk_len(q0);
        proof {
            lemma_junk_len(q0);
        }
        let header = match self.rx_header() {
            Ok(h) => h,
            Err(e) => return Err(e),
        };
        let ghost hlen = header.spec_length();
        let ghost q1 = q0.skip(j);
        // A frame longer than the destination capacity can never be
        // delivered: abandon it and resynchronize byte by byte.
        if header.payload_len() > N {
            proof {
                lemma_mod_increment(s0, j);
                assert(q1.skip(1) =~= q0.skip(j + 1));
            }
            self.skip_byte();
            return Err(PollError::Other(Error::TooManyBytes));
        }
        // Wait until the whole declared frame has arrived.
        let total_len = header.total_packet_len();
        if self.rx.bytes_available() < total_len {
            return Err(PollError::WouldBlock);
        }
        let data_len = header.data_len();
        let data = match self.peek_bytes(6, data_len) {
            Ok(v) => v,
            Err(e) => return Err(PollError::Other(e)),
        };
        match Frame::try_from_encoded(header, data.as_slice()) {
            Ok(frame_val) => {
                // The frame is valid: consume it whole.
                self.rx.flush(total_len);
                proof {
                    assert(q1.skip(6 + hlen as int) =~= q0.skip(j + 6 + hlen as int));
                }
                Ok(frame_val)
            },
            Err(e) => {
                // Corrupt section: discard 1 byte, not the whole frame, so a
                // single corrupted byte costs no more data than necessary.
                proof {
                    lemma_mod_increment(s0, j);
                    assert(q1.skip(1) =~= q0.skip(j + 1));
                }
                self.skip_byte();
                Err(PollError::Other(e))
            },
        }
    }
}

/// Stepping a wrapped counter: adding one more to a wrapped sum wraps the
/// incremented sum.
proof fn lemma_mod_increment(s: int, k: int)
    requires
        s >= 0,
        k >= 0,
    ensures
        ((s + k) % 0x1_0000_0000 + 1) % 0x1_0000_0000 == (s + k + 1) % 0x1_0000_0000,
{
    let m = 0x1_0000_0000int;
    lemma_add_mod_noop(s + k, 1, m);
    lemma_small_mod(1nat, m as nat);
}

/// Resynchronization: a valid, capacity-admissible frame preceded by any run
/// of non-marker bytes is received in one call; the junk run and the frame
/// are consumed, and exactly the junk bytes are counted as skipped.
pub proof fn lemma_resynchronization(junk: Seq<u8>, id: u16, payload: Seq<u8>, cap: int)
    requires
        forall|i: int| 0 <= i < junk.len() ==> junk[i] != START_OF_FRAME,
        id <= frame::ID_MAX,
        frame::length_field_ok(payload.len() as int),
        payload.len() <= cap,
    ensures
        ({
            let w = frame::spec_wire_frame(id, payload);
            spec_receive_step(junk + w, cap) == (
                Ok::<(u16, Seq<u8>), PollError>((id, payload)),
                junk.len() + w.len() as int,
                junk.len() as int,
            )
        }),
{
    let n = payload.len() as int;
    let lf_int = frame::spec_length_field(n);
    frame::lemma_length_field_inversion(n);
    let lf = lf_int as u16;
    let w = frame::spec_wire_frame(id, payload);
    let q = junk + w;
    let jl = junk.len() as int;
    assert(q[jl] == START_OF_FRAME);
    assert forall|i: int| 0 <= i < jl implies q[i] != START_OF_FRAME by {
        assert(q[i] == junk[i]);
    }
    lemma_junk_len_is(q, jl);
    let q1 = q.skip(jl);
    assert(q1 =~= w);
    assert(q1.take(6) =~= frame::spec_header_bytes(id, lf));
    frame::lemma_header_bytes_parse(id, lf);
    frame::lemma_section_decode(payload, cap);
    assert(q1.subrange(6, 6 + lf as int) =~= frame::spec_encoded_section(payload));
    assert(w.len() == 6 + lf as int);
}

/// Capacity rejection: a valid frame whose payload exceeds the destination
/// capacity is reported as `TooManyBytes`, with exactly 1 byte discarded
/// from the front of the queue and counted.
pub proof fn lemma_capacity_rejection(id: u16, payload: Seq<u8>, cap: int)
    requires
        id <= frame::ID_MAX,
        frame::length_field_ok(payload.len() as int),
        0 <= cap < payload.len(),
    ensures
        spec_receive_step(frame::spec_wire_frame(id, payload), cap) == (
            Err::<(u16, Seq<u8>), PollError>(PollError::Other(Error::TooManyBytes)),
            1int,
            1int,
        ),
{
    let n = payload.len() as int;
    let lf_int = frame::spec_length_field(n);
    frame::lemma_length_field_inversion(n);
    let lf = lf_int as u16;
    let w = frame::spec_wire_frame(id, payload);
    lemma_junk_len_is(w, 0);
    assert(w.skip(0) =~= w);
    assert(w.take(6) =~= frame::spec_header_bytes(id, lf));
    frame::lemma_header_bytes_parse(id, lf);
}

/// Partial arrival: while any strict prefix of a valid, capacity-admissible
/// frame is buffered, the receiver reports `WouldBlock` and consumes and
/// counts nothing, so already-delivered bytes are still in place when the
/// rest arrives; once the frame is whole, receiving it succeeds, as
/// `lemma_resynchronization` with an empty junk run states.
pub proof fn lemma_partial_arrival(id: u16, payload: Seq<u8>, cap: int, k: int)
    requires
        id <= frame::ID_MAX,
        frame::length_field_ok(payload.len() as int),
        payload.len() <= cap,
        0 <= k < frame::spec_wire_frame(id, payload).len(),
    ensures
        spec_receive_step(frame::spec_wire_frame(id, payload).take(k), cap) == (
            Err::<(u16, Seq<u8>), PollError>(PollError::WouldBlock),
            0int,
            0int,
        ),
{
    let n = payload.len() as int;
    let lf_int = frame::spec_length_field(n);
    frame::lemma_length_field_inversion(n);
    let lf = lf_int as u16;
    let w = frame::spec_wire_frame(id, payload);
    let p = w.take(k);
    lemma_junk_len_is(p, 0);
    assert(p.skip(0) =~= p);
    if k >= 6 {
        assert(p.take(6) =~= frame::spec_header_bytes(id, lf));
        frame::lemma_header_bytes_parse(id, lf);
        frame::lemma_section_decode(payload, cap);
        assert(w.len() == 6 + lf as int);
        assert(p.len() < 6 + lf as int);
    }
}

} // verus!
