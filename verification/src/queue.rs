//! In-memory implementations of the transport queue traits, for host-side
//! use: a peekable receive buffer with a read cursor, and a fixed-size
//! transmit buffer with a write cursor.

use crate::receiver::ReceiveQueue;
use crate::transmitter::TransmitQueue;
use vstd::prelude::*;

verus! {

/// A receive queue over an in-memory byte buffer: bytes are peeked relative
/// to a read cursor and discarded by advancing it.
pub struct RxBuffer {
    data: Vec<u8>,
    cursor: usize,
}

impl RxBuffer {
    #[verifier::type_invariant]
    spec fn inv(&self) -> bool {
        self.cursor <= self.data@.len()
    }

    /// A queue initially holding the given bytes.
    pub fn new(data: Vec<u8>) -> (r: RxBuffer)
        ensures
            r.contents() == data@,
    {
        let r = RxBuffer { data, cursor: 0 };
        proof {
            assert(r.contents() =~= r.data@);
        }
        r
    }

    /// Append newly arrived bytes behind the buffered ones.
    pub fn feed(&mut self, more: &[u8])
        ensures
            final(self).contents() == old(self).contents() + more@,
    {
        proof {
            use_type_invariant(&*self);
        }
        let saved_cursor = self.cursor;
        self.cursor = 0;
        let mut d: Vec<u8> = Vec::new();
        core::mem::swap(&mut d, &mut self.data);
        let mut i: usize = 0;
        while i < more.len()
            invariant
                i <= more@.len(),
                d@ == old(self).data@ + more@.take(i as int),
            decreases more@.len() - i,
        {
            d.push(more[i]);
            proof {
                assert(d@ =~= old(self).data@ + more@.take(i as int + 1));
            }
            i += 1;
        }
        proof {
            assert(d@ =~= old(self).data@ + more@);
        }
        self.data = d;
        self.cursor = saved_cursor;
        proof {
            assert(self.contents() =~= old(self).contents() + more@);
        }
    }
}

impl ReceiveQueue for RxBuffer {
    closed spec fn contents(&self) -> Seq<u8> {
        self.data@.skip(self.cursor as int)
    }

    fn bytes_available(&self) -> (n: usize) {
        proof {
            use_type_invariant(self);
        }
        self.data.len() - self.cursor
    }

    fn peek_at(&self, offset: usize) -> (r: Option<u8>) {
        proof {
            use_type_invariant(self);
        }
        if offset < self.data.len() - self.cursor {
            Some(self.data[self.cursor + offset])
        } else {
            None
        }
    }

    fn flush(&mut self, n_bytes: usize) {
        proof {
            use_type_invariant(&*self);
        }
        let buffered = self.data.len();
        assert(self.cursor + n_bytes <= buffered);
        self.cursor = self.cursor + n_bytes;
        proof {
            assert(self.data@.skip(self.cursor as int) =~= old(self).contents().skip(
                n_bytes as int,
            ));
        }
    }
}

/// A transmit queue over a fixed-size in-memory buffer: written bytes
/// overwrite the buffer front to back, and the space is whatever the buffer
/// has left.
pub struct TxBuffer {
    data: Vec<u8>,
    count: usize,
}

impl TxBuffer {
    #[verifier::type_invariant]
    spec fn inv(&self) -> bool {
        self.count <= self.data@.len()
    }

    /// A queue writing over the given buffer; the buffer's length is the
    /// queue's capacity.
    pub fn new(data: Vec<u8>) -> (r: TxBuffer)
        ensures
            r.sent() == Seq::<u8>::empty(),
            r.space() == data@.len(),
            r.buffer() == data@,
    {
        let r = TxBuffer { data, count: 0 };
        proof {
            assert(r.sent() =~= Seq::<u8>::empty());
        }
        r
    }

    /// The whole underlying buffer: the written bytes first, the untouched
    /// rest of the initial contents after them.
    pub closed spec fn buffer(&self) -> Seq<u8> {
        self.data@
    }

    /// Read the underlying buffer; the written bytes are its front.
    pub fn bytes(&self) -> (r: &[u8])
        ensures
            r@ == self.buffer(),
            self.sent().len() <= r@.len(),
            self.sent() == r@.take(self.sent().len() as int),
    {
        proof {
            use_type_invariant(self);
        }
        self.data.as_slice()
    }

    /// How many bytes have been written.
    pub fn count(&self) -> (r: usize)
        ensures
            r == self.sent().len(),
    {
        proof {
            use_type_invariant(self);
        }
        self.count
    }
}

impl TransmitQueue for TxBuffer {
    closed spec fn sent(&self) -> Seq<u8> {
        self.data@.take(self.count as int)
    }

    closed spec fn space(&self) -> int {
        self.data@.len() - self.count
    }

    fn space_available(&self) -> (n: usize) {
        proof {
            use_type_invariant(self);
        }
        self.data.len() - self.count
    }

    fn write(&mut self, byte: u8) -> (r: Result<(), u8>) {
        proof {
            use_type_invariant(&*self);
        }
        if self.count < self.data.len() {
            let saved_count = self.count;
            self.count = 0;
            let mut d: Vec<u8> = Vec::new();
            core::mem::swap(&mut d, &mut self.data);
            d.set(saved_count, byte);
            self.data = d;
            self.count = saved_count + 1;
            proof {
                assert(self.sent() =~= old(self).sent().push(byte));
            }
            Ok(())
        } else {
            Err(byte)
        }
    }
}

} // verus!
