//! The per-connection protocol state: one accumulation buffer and the
//! read-decode-reply cycle's decisions.
//!
//! The socket itself lives outside this crate; whatever reads from it
//! hands the bytes that arrived to `on_read` and acts on the outcome.
//! A zero-byte read with an empty buffer is the normal end of the
//! connection; a zero-byte read with bytes still pending means the peer
//! reset mid-message. `next_frame` pulls one complete frame off the
//! buffer, dropping exactly the bytes it consumed, and a malformed frame
//! is fatal: the connection moves to `Failed` and decodes nothing more.

use bytes::BytesMut;
use vstd::prelude::*;

use crate::buf::{buffer_advance, buffer_bytes, buffer_extend, buffer_len, buffer_with_capacity,
    bytes_view};
use crate::decode::{spec_decode, DecodeError, DecodeOutcome, SpecDecoded};
use crate::encode::encode_spec;
use crate::value::Value;

verus! {

/// Where the connection stands between events.
#[derive(Clone, Copy, Debug, PartialEq, Eq, Structural)]
pub enum ConnState {
    /// Ready for more bytes or another decode attempt.
    AwaitingData,
    /// Cleanly closed by the peer.
    Closed,
    /// Aborted: reset mid-message or a malformed frame.
    Failed,
}

/// What a read of the socket means for the connection.
#[derive(Clone, Copy, Debug, PartialEq, Eq, Structural)]
pub enum ReadOutcome {
    /// Bytes were appended; try to decode.
    Continue,
    /// Clean end of stream.
    CleanClose,
    /// The peer closed with a partial message pending.
    Reset,
}

/// What one decode attempt on the buffer means.
#[derive(Debug)]
pub enum FrameStep {
    /// One complete frame, removed from the buffer.
    Ready(Value),
    /// The buffer holds no complete frame yet; read more bytes.
    NeedMore,
    /// The stream is malformed; the connection has failed.
    Corrupt(DecodeError),
}

/// One connection's protocol state: the bytes read but not yet decoded,
/// and whether the connection is still live.
pub struct Connection {
    buffer: BytesMut,
    state: ConnState,
}

impl Connection {
    /// The bytes read from the peer but not yet consumed by a frame.
    pub closed spec fn buffer_view(&self) -> Seq<u8> {
        bytes_view(self.buffer)
    }

    /// The connection's current state.
    pub closed spec fn state(&self) -> ConnState {
        self.state
    }

    /// A fresh connection: empty buffer, awaiting data.
    pub fn new() -> (c: Connection)
        ensures
            c.buffer_view() == Seq::<u8>::empty(),
            c.state() is AwaitingData,
    {
        Connection { buffer: buffer_with_capacity(4096), state: ConnState::AwaitingData }
    }

    /// Whether the connection is still live: ready for reads and decodes.
    pub fn is_open(&self) -> (r: bool)
        ensures
            r == (self.state() is AwaitingData),
    {
        match self.state {
            ConnState::AwaitingData => true,
            _ => false,
        }
    }

    /// Record the result of one socket read: append the bytes that
    /// arrived, or classify the end of the stream.
    pub fn on_read(&mut self, data: &[u8]) -> (r: ReadOutcome)
        requires
            old(self).state() is AwaitingData,
        ensures
            data@.len() > 0 ==> {
                &&& r is Continue
                &&& final(self).state() is AwaitingData
                &&& final(self).buffer_view() == old(self).buffer_view() + data@
            },
            data@.len() == 0 && old(self).buffer_view().len() == 0 ==> {
                &&& r is CleanClose
                &&& final(self).state() is Closed
                &&& final(self).buffer_view() == old(self).buffer_view()
            },
            data@.len() == 0 && old(self).buffer_view().len() > 0 ==> {
                &&& r is Reset
                &&& final(self).state() is Failed
                &&& final(self).buffer_view() == old(self).buffer_view()
            },
    {
        if data.len() == 0 {
            if buffer_len(&self.buffer) == 0 {
                self.state = ConnState::Closed;
                ReadOutcome::CleanClose
            } else {
                self.state = ConnState::Failed;
                ReadOutcome::Reset
            }
        } else {
            buffer_extend(&mut self.buffer, data);
            assert(self.buffer_view() =~= old(self).buffer_view() + data@);
            ReadOutcome::Continue
        }
    }

    /// Try to decode one frame from the front of the buffer. A complete
    /// frame is removed from the buffer and handed out; an incomplete
    /// buffer is kept as it is; a malformed one fails the connection.
    pub fn next_frame(&mut self) -> (r: FrameStep)
        requires
            old(self).state() is AwaitingData,
        ensures
            match spec_decode(old(self).buffer_view()) {
                SpecDecoded::Found { v, used } => {
                    &&& r matches FrameStep::Ready(x) && x@ == v
                    &&& final(self).buffer_view() == old(self).buffer_view().skip(used)
                    &&& final(self).state() is AwaitingData
                },
                SpecDecoded::Incomplete => {
                    &&& r is NeedMore
                    &&& final(self).buffer_view() == old(self).buffer_view()
                    &&& final(self).state() is AwaitingData
                },
                SpecDecoded::Fail { at, kind } => {
                    &&& r matches FrameStep::Corrupt(e) && e.offset == at && e.kind == kind
                    &&& final(self).buffer_view() == old(self).buffer_view()
                    &&& final(self).state() is Failed
                },
            },
    {
        let outcome = crate::decode::value(buffer_bytes(&self.buffer));
        match outcome {
            DecodeOutcome::Found(v, used) => {
                buffer_advance(&mut self.buffer, used);
                FrameStep::Ready(v)
            },
            DecodeOutcome::Incomplete => FrameStep::NeedMore,
            DecodeOutcome::Fail(e) => {
                self.state = ConnState::Failed;
                FrameStep::Corrupt(e)
            },
        }
    }

    /// The bytes to write back for the dispatcher's reply: exactly the
    /// reply's wire encoding.
    pub fn encode_reply(reply: &Value) -> (out: Vec<u8>)
        ensures
            out@ == encode_spec(reply@),
    {
        let mut out: Vec<u8> = Vec::new();
        crate::encode::encode(reply, &mut out);
        assert(out@ =~= encode_spec(reply@));
        out
    }
}

} // verus!
