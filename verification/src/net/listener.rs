use crate::fix::ringbuffer::{
    extract_outcome, lemma_extract_complete, LookaheadRingBuffer, ScanStatus,
};
use vstd::prelude::*;

verus! {

/// The largest message handed to the engine, in bytes.
pub const MAX_BUFFER: usize = 4096;

/// The size of each connection's ring buffer.
pub const RINGBUFFER_CAP: usize = 1048576;

/// Connections beyond this many are refused.
pub const MAX_CONNECTIONS: usize = 512;

/// The TCP front end: the address it listens on.
pub struct NetworkLayer {
    addr: String,
}

/// One framed FIX message on its way to the engine: its first `raw_len` bytes of `data`.
pub struct IncomingFixMessage {
    pub raw_len: usize,
    pub data: [u8; MAX_BUFFER],
}

/// What the next framing step of a connection's buffer gives.
pub enum Intake {
    /// A whole message, now consumed from the buffer.
    Message(IncomingFixMessage),
    /// A whole message of this length that is too large to pass on, now consumed.
    Oversized(usize),
    /// No whole message yet.
    NeedMore,
    /// A bad header; the buffer was moved on to the next message start or emptied.
    Invalid,
}

impl NetworkLayer {
    pub closed spec fn spec_addr(&self) -> Seq<char> {
        self.addr@
    }

    pub fn new(addr: String) -> (r: Self)
        ensures
            r.spec_addr() == addr@,
    {
        NetworkLayer { addr }
    }

    /// The address to listen on.
    pub fn addr(&self) -> (r: &String)
        ensures
            r@ == self.spec_addr(),
    {
        &self.addr
    }
}

/// Frames the next message of a connection's buffer and takes it out: a message of at
/// most `MAX_BUFFER` bytes is copied out, a larger one dropped.
pub fn take_message(rb: &mut LookaheadRingBuffer) -> (r: Intake)
    requires
        old(rb).wf(),
    ensures
        final(rb).wf(),
        final(rb).spec_capacity() == old(rb).spec_capacity(),
        ({
            let (st, out) = extract_outcome(old(rb)@, old(rb).spec_capacity());
            match st {
                ScanStatus::Complete(n) => {
                    let w = old(rb)@.skip(out.unwrap());
                    &&& out is Some
                    &&& n <= w.len()
                    &&& final(rb)@ == w.skip(n as int)
                    &&& n > MAX_BUFFER ==> r == Intake::Oversized(n)
                    &&& n <= MAX_BUFFER ==> (r matches Intake::Message(m) && m.raw_len == n
                        && m.data@.take(n as int) == w.take(n as int) && forall|j: int|
                        n <= j < MAX_BUFFER ==> #[trigger] m.data@[j] == 0u8)
                },
                ScanStatus::Incomplete => {
                    &&& r is NeedMore
                    &&& out matches Some(k) && final(rb)@ == old(rb)@.skip(k)
                },
                ScanStatus::Invalid => {
                    &&& r is Invalid
                    &&& out matches Some(k) ==> final(rb)@ == old(rb)@.skip(k)
                    &&& out is None ==> final(rb)@ == Seq::<u8>::empty()
                },
            }
        }),
{
    let ghost v0 = rb@;
    proof {
        lemma_extract_complete(v0, rb.spec_capacity());
    }
    let status = rb.extract_complete_message();
    match status {
        ScanStatus::Complete(msg_len) => {
            proof {
                rb.lemma_wf();
                assert(msg_len <= rb@.len());
                assert(rb.spec_capacity() > 0);
            }
            if msg_len > MAX_BUFFER {
                rb.consume(msg_len);
                return Intake::Oversized(msg_len);
            }
            let mut incoming = IncomingFixMessage { raw_len: msg_len, data: [0u8; 4096] };
            let bytes = rb.peek_slice(0, msg_len);
            match bytes {
                Some(msg_bytes) => {
                    let ghost w = rb@;
                    let mut i: usize = 0;
                    while i < msg_len
                        invariant
                            msg_len <= MAX_BUFFER,
                            msg_len <= w.len(),
                            msg_len > 0 ==> msg_bytes@ == w.subrange(0, msg_len as int),
                            i <= msg_len,
                            incoming.raw_len == msg_len,
                            incoming.data@.len() == MAX_BUFFER,
                            forall|j: int| 0 <= j < i ==> #[trigger] incoming.data@[j] == w[j],
                            forall|j: int| i <= j < MAX_BUFFER ==> #[trigger] incoming.data@[j] == 0u8,
                        decreases msg_len - i,
                    {
                        incoming.data[i] = msg_bytes[i];
                        i += 1;
                    }
                    rb.consume(msg_len);
                    proof {
                        assert(incoming.data@.take(msg_len as int) =~= w.take(msg_len as int));
                    }
                    Intake::Message(incoming)
                },
                None => {
                    proof {
                        assert(false);
                    }
                    rb.consume(msg_len);
                    Intake::NeedMore
                },
            }
        },
        ScanStatus::Incomplete => Intake::NeedMore,
        ScanStatus::Invalid => Intake::Invalid,
    }
}

} // verus!
