//! The frame codec: values to and from the byte buffer of a connection.

use vstd::prelude::*;
use bytes::{Buf, BufMut, BytesMut};
use crate::error::{DecodeError, ParseError};
use crate::grammar::decode;
use crate::model::{wire, RespVersion};
use crate::parse::Parser;
use crate::value::Value;

verus! {

#[verifier::external_type_specification]
#[verifier::external_body]
pub struct ExBytesMut(BytesMut);

/// The bytes that a buffer holds, from its front to its end.
pub uninterp spec fn buffer_bytes(b: BytesMut) -> Seq<u8>;

/// The most bytes that a buffer is asked to hold.
pub open spec fn buffer_limit() -> int {
    isize::MAX as int
}

/// `BytesMut::len`: the number of bytes that the buffer holds.
#[verifier::external_body]
fn buffer_len(b: &BytesMut) -> (n: usize)
    ensures
        n == buffer_bytes(*b).len(),
{
    b.len()
}

/// The bytes of the buffer as a slice, by `AsRef<[u8]>` of `BytesMut`.
#[verifier::external_body]
fn buffer_slice(b: &BytesMut) -> (s: &[u8])
    ensures
        s@ == buffer_bytes(*b),
{
    b.as_ref()
}

/// `Buf::advance` of `BytesMut`: drops `cnt` bytes from the front of the
/// buffer. It panics where `cnt` is more than the buffer holds, which
/// the precondition rules out.
#[verifier::external_body]
fn buffer_advance(b: &mut BytesMut, cnt: usize)
    requires
        cnt <= buffer_bytes(*old(b)).len(),
    ensures
        buffer_bytes(*final(b)) == buffer_bytes(*old(b)).skip(cnt as int),
{
    b.advance(cnt)
}

/// `BytesMut::reserve`: makes room for `additional` more bytes and
/// leaves the bytes as they are. It panics where the new capacity
/// overflows, which the precondition rules out.
#[verifier::external_body]
fn buffer_reserve(b: &mut BytesMut, additional: usize)
    requires
        buffer_bytes(*old(b)).len() + additional <= buffer_limit(),
    ensures
        buffer_bytes(*final(b)) == buffer_bytes(*old(b)),
{
    b.reserve(additional)
}

/// `BufMut::put` of `BytesMut` with a slice: appends the bytes of `src`
/// to the buffer, which grows as needed. It panics where the new
/// capacity overflows, which the precondition rules out.
#[verifier::external_body]
fn buffer_put(b: &mut BytesMut, src: &[u8])
    requires
        buffer_bytes(*old(b)).len() + src@.len() <= buffer_limit(),
    ensures
        buffer_bytes(*final(b)) == buffer_bytes(*old(b)) + src@,
{
    b.put(src)
}

/// The codec of a connection: it writes values in the wire form of one
/// protocol version and reads frames of either.
pub struct RedisCodec {
    version: RespVersion,
}

impl RedisCodec {
    /// The protocol version in which values are written.
    pub closed spec fn version(&self) -> RespVersion {
        self.version
    }

    /// A codec that writes the newer revision of the protocol.
    pub fn new() -> (r: RedisCodec)
        ensures
            r.version() == RespVersion::Resp3,
    {
        RedisCodec { version: RespVersion::Resp3 }
    }

    /// A codec that writes the given revision of the protocol.
    pub fn with_version(version: RespVersion) -> (r: RedisCodec)
        ensures
            r.version() == version,
    {
        RedisCodec { version }
    }

    /// Appends the wire form of `event` to `buf`. It fails, and leaves
    /// `buf` as it is, only where the buffer would grow beyond what a
    /// buffer can hold.
    pub fn encode(&mut self, event: Value, buf: &mut BytesMut) -> (r: Result<(), ParseError>)
        ensures
            final(self).version() == old(self).version(),
            buffer_bytes(*old(buf)).len() + wire(event@, old(self).version()).len()
                <= buffer_limit() ==> r is Ok && buffer_bytes(*final(buf)) == buffer_bytes(
                *old(buf),
            ) + wire(event@, old(self).version()),
            buffer_bytes(*old(buf)).len() + wire(event@, old(self).version()).len()
                > buffer_limit() ==> (r matches Err(e) && e is Unknown) && buffer_bytes(
                *final(buf),
            ) == buffer_bytes(*old(buf)),
    {
        let bytes = event.encode(self.version);
        let held: usize = buffer_len(buf);
        let limit: usize = isize::MAX as usize;
        if bytes.len() > limit || held > limit - bytes.len() {
            return Err(ParseError::Unknown("frame too large for the buffer"));
        }
        buffer_reserve(buf, bytes.len());
        buffer_put(buf, bytes.as_slice());
        Ok(())
    }

    /// Reads one frame from the front of `src`. Where a whole frame is
    /// there, exactly its bytes leave the buffer and its value is given.
    /// Where the bytes are the start of a frame and no more, nothing
    /// leaves the buffer and `None` says that more bytes are needed; so
    /// it is with an empty buffer. Where the bytes cannot start a
    /// frame, nothing leaves the buffer and the error is given.
    pub fn decode(&mut self, src: &mut BytesMut) -> (r: Result<Option<Value>, ParseError>)
        ensures
            final(self).version() == old(self).version(),
            match decode(buffer_bytes(*old(src))) {
                Ok((m, c)) => r matches Ok(Some(v)) && v@ == m && c <= buffer_bytes(
                    *old(src),
                ).len() && buffer_bytes(*final(src)) == buffer_bytes(*old(src)).skip(c as int),
                Err(DecodeError::Incomplete) => r matches Ok(None) && buffer_bytes(*final(src))
                    == buffer_bytes(*old(src)),
                Err(e) => r matches Err(pe) && pe.reports(e) && buffer_bytes(*final(src))
                    == buffer_bytes(*old(src)),
            },
    {
        if buffer_len(src) == 0 {
            return Ok(None);
        }
        let (parsed, used) = {
            let mut parser = Parser::new(buffer_slice(src));
            assert(parser.rest() =~= buffer_bytes(*src));
            let parsed = parser.parse_value();
            (parsed, parser.consumed())
        };
        match parsed {
            Ok(v) => {
                buffer_advance(src, used);
                Ok(Some(v))
            },
            Err(e) => if e.in_complete() {
                Ok(None)
            } else {
                Err(e)
            },
        }
    }
}

} // verus!
