//! The buffer of one direction of a TCP relay.
//!
//! Bytes read from one socket go into a fixed buffer and are written out to
//! the other socket before the next read. The buffer keeps, as ghost state,
//! every byte it has received and every byte it has handed on, and its
//! invariant ties the two together: what was handed on, followed by what is
//! still pending, is exactly what was received.

use vstd::prelude::*;

verus! {

/// The size of the relay buffer.
pub const COPY_BUF_SIZE: usize = 2048;

/// Why the relay stopped.
#[derive(Debug, PartialEq, Eq, Clone, Copy)]
pub enum CopyError {
    /// The writer accepted no byte of a non-empty write.
    WriteZero,
}

/// The state of one copy loop: a buffer, the range of it that still waits
/// to be written, whether the reader has reached its end, and the number of
/// bytes written so far.
pub struct CopyBuf {
    read_done: bool,
    pos: usize,
    cap: usize,
    amt: u64,
    raw_buf: Vec<u8>,
    received: Ghost<Seq<u8>>,
    sent: Ghost<Seq<u8>>,
}

impl CopyBuf {
    /// Every byte received so far, in order.
    pub closed spec fn received(&self) -> Seq<u8> {
        self.received@
    }

    /// Every byte handed on to the writer so far, in order.
    pub closed spec fn sent(&self) -> Seq<u8> {
        self.sent@
    }

    /// The bytes read but not yet written.
    pub closed spec fn pending_bytes(&self) -> Seq<u8> {
        self.raw_buf@.subrange(self.pos as int, self.cap as int)
    }

    /// The start of the range that waits to be written.
    pub closed spec fn spec_pos(&self) -> usize {
        self.pos
    }

    /// The end of the range that waits to be written.
    pub closed spec fn spec_cap(&self) -> usize {
        self.cap
    }

    /// The whole buffer.
    pub closed spec fn buffer(&self) -> Seq<u8> {
        self.raw_buf@
    }

    pub closed spec fn spec_read_done(&self) -> bool {
        self.read_done
    }

    pub closed spec fn spec_amt(&self) -> u64 {
        self.amt
    }

    /// The buffer's invariant.
    pub closed spec fn wf(&self) -> bool {
        &&& self.raw_buf@.len() == COPY_BUF_SIZE
        &&& self.pos <= self.cap <= self.raw_buf@.len()
        &&& self.received@ == self.sent@ + self.pending_bytes()
        &&& self.amt == self.sent@.len()
    }

    /// An empty buffer that has neither read nor written anything: a zeroed
    /// buffer of `COPY_BUF_SIZE` bytes with an empty pending range at 0.
    pub fn new() -> (b: CopyBuf)
        ensures
            b.wf(),
            !b.spec_read_done(),
            b.spec_pos() == 0,
            b.spec_cap() == 0,
            b.buffer() == Seq::new(COPY_BUF_SIZE as nat, |k: int| 0u8),
            b.spec_amt() == 0,
            b.pending_bytes() == Seq::<u8>::empty(),
            b.received() == Seq::<u8>::empty(),
            b.sent() == Seq::<u8>::empty(),
    {
        let mut raw_buf: Vec<u8> = Vec::with_capacity(COPY_BUF_SIZE);
        let mut i: usize = 0;
        while i < COPY_BUF_SIZE
            invariant
                i <= COPY_BUF_SIZE,
                raw_buf@ == Seq::new(i as nat, |k: int| 0u8),
            decreases COPY_BUF_SIZE - i,
        {
            raw_buf.push(0u8);
            i = i + 1;
            proof {
                assert(raw_buf@ =~= Seq::new(i as nat, |k: int| 0u8));
            }
        }
        let b = CopyBuf {
            read_done: false,
            pos: 0,
            cap: 0,
            amt: 0,
            raw_buf,
            received: Ghost(Seq::empty()),
            sent: Ghost(Seq::empty()),
        };
        assert(b.pending_bytes() =~= Seq::<u8>::empty());
        b
    }

    /// Whether the reader has reported its end.
    pub fn read_done(&self) -> (r: bool)
        ensures
            r == self.spec_read_done(),
    {
        self.read_done
    }

    /// The number of bytes written so far.
    pub fn amt(&self) -> (r: u64)
        requires
            self.wf(),
        ensures
            r == self.spec_amt(),
            r == self.sent().len(),
    {
        self.amt
    }

    /// Whether the next step is a read: everything read has been written and
    /// the reader has not reported its end.
    pub fn needs_read(&self) -> (r: bool)
        requires
            self.wf(),
        ensures
            r == (self.pending_bytes().len() == 0 && !self.spec_read_done()),
    {
        self.pos == self.cap && !self.read_done
    }

    /// Whether some bytes wait to be written.
    pub fn has_pending(&self) -> (r: bool)
        requires
            self.wf(),
        ensures
            r == (self.pending_bytes().len() > 0),
    {
        self.pos < self.cap
    }

    /// Whether the copy is complete: the reader has ended and every byte it
    /// gave has been written.
    pub fn is_finished(&self) -> (r: bool)
        requires
            self.wf(),
        ensures
            r == (self.pending_bytes().len() == 0 && self.spec_read_done()),
            r ==> self.sent() == self.received(),
    {
        proof {
            if self.pos == self.cap {
                assert(self.pending_bytes() =~= Seq::<u8>::empty());
                assert(self.received() =~= self.sent());
            }
        }
        self.pos == self.cap && self.read_done
    }

    /// The bytes that wait to be written.
    pub fn pending(&self) -> (r: &[u8])
        requires
            self.wf(),
        ensures
            r@ == self.pending_bytes(),
    {
        let s = self.raw_buf.as_slice();
        &s[self.pos..self.cap]
    }

    /// Records what a read gave: `chunk` is the data read, and an empty
    /// chunk is the reader's end.
    pub fn on_read(&mut self, chunk: &[u8])
        requires
            old(self).wf(),
            old(self).pending_bytes().len() == 0,
            !old(self).spec_read_done(),
            chunk@.len() <= COPY_BUF_SIZE,
        ensures
            final(self).wf(),
            final(self).spec_read_done() == (chunk@.len() == 0),
            final(self).pending_bytes() == chunk@,
            final(self).received() == old(self).received() + chunk@,
            final(self).sent() == old(self).sent(),
            final(self).spec_amt() == old(self).spec_amt(),
    {
        if chunk.len() == 0 {
            self.read_done = true;
            proof {
                assert(self.pending_bytes() =~= chunk@);
                assert(self.received@ =~= old(self).received@ + chunk@);
            }
        } else {
            let ghost received = self.received@;
            let ghost sent = self.sent@;
            assert(received =~= sent);
            let mut i: usize = 0;
            while i < chunk.len()
                invariant
                    i <= chunk@.len() <= COPY_BUF_SIZE,
                    self.raw_buf@.len() == COPY_BUF_SIZE,
                    self.sent@ == sent,
                    self.amt == sent.len(),
                    self.read_done == old(self).read_done,
                    forall|j: int| 0 <= j < i ==> self.raw_buf@[j] == chunk@[j],
                decreases chunk@.len() - i,
            {
                self.raw_buf.set(i, chunk[i]);
                i = i + 1;
            }
            self.pos = 0;
            self.cap = chunk.len();
            self.received = Ghost(received + chunk@);
            proof {
                assert(self.pending_bytes() =~= chunk@);
                assert(self.received@ =~= self.sent@ + self.pending_bytes());
            }
        }
    }

    /// Records what a write gave: the writer accepted the first `n` pending
    /// bytes. A write that accepted nothing ends the copy with an error and
    /// leaves the buffer unchanged.
    pub fn on_write(&mut self, n: usize) -> (r: Result<(), CopyError>)
        requires
            old(self).wf(),
            n <= old(self).pending_bytes().len(),
            old(self).spec_amt() + n <= u64::MAX,
        ensures
            final(self).wf(),
            final(self).received() == old(self).received(),
            final(self).spec_read_done() == old(self).spec_read_done(),
            n == 0 ==> r == Err::<(), CopyError>(CopyError::WriteZero) && *final(self) == *old(self),
            n > 0 ==> {
                &&& r == Ok::<(), CopyError>(())
                &&& final(self).sent() == old(self).sent() + old(self).pending_bytes().subrange(0, n as int)
                &&& final(self).pending_bytes() == old(self).pending_bytes().subrange(n as int, old(self).pending_bytes().len() as int)
                &&& final(self).spec_amt() == old(self).spec_amt() + n
            },
    {
        if n == 0 {
            return Err(CopyError::WriteZero);
        }
        let ghost chunk = self.pending_bytes().subrange(0, n as int);
        let ghost old_pending = self.pending_bytes();
        self.sent = Ghost(self.sent@ + chunk);
        self.pos = self.pos + n;
        self.amt = self.amt + n as u64;
        proof {
            assert(self.pending_bytes() =~= old_pending.subrange(n as int, old_pending.len() as int));
            assert(self.received@ =~= self.sent@ + self.pending_bytes());
        }
        Ok(())
    }
}

/// The relay forwards the stream unchanged: at every point, what it has
/// written followed by what it holds is exactly what it has read, and once
/// it is finished it has written exactly what it read.
pub proof fn lemma_relay_forwards_stream(buf: &CopyBuf)
    requires
        buf.wf(),
    ensures
        buf.received() == buf.sent() + buf.pending_bytes(),
        buf.spec_amt() == buf.sent().len(),
        buf.pending_bytes().len() == 0 && buf.spec_read_done() ==> buf.sent() == buf.received(),
{
    if buf.pending_bytes().len() == 0 {
        assert(buf.received() =~= buf.sent());
    }
}

} // verus!
