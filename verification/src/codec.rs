//! Frame-level codec over a connection's byte buffer: decode one `Value`
//! from the front of the accumulated bytes, or append one `Value`'s
//! encoding to an outgoing buffer.

use bytes::BytesMut;
use vstd::prelude::*;

use crate::buf::{buffer_advance, buffer_bytes, buffer_extend, bytes_view};
use crate::decode::{DecodeError, DecodeOutcome, SpecDecoded};
use crate::encode::encode_spec;
use crate::value::Value;

verus! {

/// Streaming decoder: pulls complete frames off the front of a buffer.
pub struct RespDecoder;

/// Streaming encoder: writes frames to the back of a buffer.
pub struct RespEncoder;

impl RespDecoder {
    /// Try to decode one complete frame from the front of `src`.
    ///
    /// On success the consumed bytes are removed from `src` and the value
    /// returned; an incomplete buffer is left untouched and yields
    /// `Ok(None)`, so the caller can read more bytes and try again; a
    /// malformed buffer is left untouched and yields the decode error.
    pub fn decode(&mut self, src: &mut BytesMut) -> (r: Result<Option<Value>, DecodeError>)
        ensures
            match crate::decode::spec_decode(bytes_view(*old(src))) {
                SpecDecoded::Found { v, used } => {
                    &&& r matches Ok(Some(x)) && x@ == v
                    &&& bytes_view(*final(src)) == bytes_view(*old(src)).skip(used)
                },
                SpecDecoded::Incomplete => {
                    &&& r matches Ok(None)
                    &&& bytes_view(*final(src)) == bytes_view(*old(src))
                },
                SpecDecoded::Fail { at, kind } => {
                    &&& r matches Err(e) && e.offset == at && e.kind == kind
                    &&& bytes_view(*final(src)) == bytes_view(*old(src))
                },
            },
    {
        let outcome = crate::decode::value(buffer_bytes(src));
        match outcome {
            DecodeOutcome::Found(v, used) => {
                buffer_advance(src, used);
                Ok(Some(v))
            },
            DecodeOutcome::Incomplete => Ok(None),
            DecodeOutcome::Fail(e) => Err(e),
        }
    }
}

impl RespEncoder {
    /// Append the exact wire encoding of `item` to `dst`.
    pub fn encode(&mut self, item: Value, dst: &mut BytesMut)
        ensures
            bytes_view(*final(dst)) == bytes_view(*old(dst)) + encode_spec(item@),
    {
        let mut out: Vec<u8> = Vec::new();
        crate::encode::encode(&item, &mut out);
        buffer_extend(dst, out.as_slice());
    }
}

} // verus!
