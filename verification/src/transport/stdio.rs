//! Frames on a byte stream: a length of four bytes, the highest first, and as
//! many bytes of payload.
//!
//! [`Connection`] frames bytes that are in memory. What reads and writes a real
//! stream takes its decisions from [`frame_prefix`], [`prefix_step`] and
//! [`accepted_length`].

use crate::error::TransportError;
use crate::wire::read_be32;
use vstd::prelude::*;
use vstd::slice::{slice_subrange, slice_to_vec};

verus! {

/// What a transport error says.
pub enum Failure {
    Io { operation: Seq<char> },
    FrameTooLarge { len: int, max: int },
    UnexpectedEof { operation: Seq<char> },
    Launch { target: Seq<char> },
    MissingPipe { pipe: Seq<char>, target: Seq<char> },
}

impl View for TransportError {
    type V = Failure;

    open spec fn view(&self) -> Failure {
        match self {
            TransportError::Io { operation } => Failure::Io { operation: operation@ },
            TransportError::FrameTooLarge { len, max } => Failure::FrameTooLarge {
                len: *len as int,
                max: *max as int,
            },
            TransportError::UnexpectedEof { operation } => Failure::UnexpectedEof {
                operation: operation@,
            },
            TransportError::Launch { target } => Failure::Launch { target: target@ },
            TransportError::MissingPipe { pipe, target } => Failure::MissingPipe {
                pipe: pipe@,
                target: target@,
            },
        }
    }
}

/// Whether a payload of `len` bytes may be sent as one frame.
pub open spec fn sendable(len: int, max_frame_bytes: usize) -> bool {
    len <= max_frame_bytes && len <= u32::MAX
}

/// A frame on the stream.
pub open spec fn frame_bytes(payload: Seq<u8>) -> Seq<u8> {
    crate::wire::be32(payload.len() as u32) + payload
}

/// The length prefix of a frame.
pub fn frame_prefix(len: usize, max_frame_bytes: usize) -> (prefix: Result<[u8; 4], TransportError>)
    ensures
        if sendable(len as int, max_frame_bytes) {
            prefix matches Ok(found) && found@ == crate::wire::be32(len as u32)
        } else {
            prefix == Err::<[u8; 4], TransportError>(
                TransportError::FrameTooLarge { len, max: max_frame_bytes },
            )
        },
{
    if len > max_frame_bytes || len as u64 > u32::MAX as u64 {
        return Err(TransportError::FrameTooLarge { len, max: max_frame_bytes });
    }
    let value: u32 = len as u32;
    let prefix: [u8; 4] = [
        (value / 0x100_0000) as u8,
        (value / 0x1_0000 % 256) as u8,
        (value / 0x100 % 256) as u8,
        (value % 256) as u8,
    ];
    assert(prefix@ =~= crate::wire::be32(value));
    Ok(prefix)
}

/// The length that a prefix announces, if a frame may be that long.
pub fn accepted_length(prefix: [u8; 4], max_frame_bytes: usize) -> (len: Result<
    usize,
    TransportError,
>)
    ensures
        ({
            let announced = crate::wire::be32_at(prefix@, 0);
            len == if announced <= max_frame_bytes {
                Ok::<usize, TransportError>(announced as usize)
            } else {
                Err(
                    TransportError::FrameTooLarge {
                        len: announced as usize,
                        max: max_frame_bytes,
                    },
                )
            }
        }),
{
    let announced: usize = read_be32(&prefix, 0) as usize;
    if announced > max_frame_bytes {
        return Err(TransportError::FrameTooLarge { len: announced, max: max_frame_bytes });
    }
    Ok(announced)
}

/// Where the reading of a length prefix stands.
#[derive(Debug, Clone, Copy, PartialEq, Eq, Structural)]
pub enum PrefixStep {
    /// So many of its bytes have been read, and more are needed.
    Continue { offset: usize },
    /// The prefix is complete.
    Complete,
    /// The stream ended before the prefix began: there are no more frames.
    CleanEnd,
}

/// Takes note that `read` more bytes of a prefix arrived, of which `offset` were
/// there before. A stream that ends inside a prefix is an error.
pub fn prefix_step(offset: usize, read: usize) -> (step: Result<PrefixStep, TransportError>)
    requires
        offset < 4,
        offset + read <= 4,
    ensures
        if read == 0 && offset > 0 {
            step matches Err(error) && error@ == (Failure::UnexpectedEof {
                operation: "read frame length"@,
            })
        } else if read == 0 {
            step == Ok::<PrefixStep, TransportError>(PrefixStep::CleanEnd)
        } else if offset + read == 4 {
            step == Ok::<PrefixStep, TransportError>(PrefixStep::Complete)
        } else {
            step == Ok::<PrefixStep, TransportError>(
                PrefixStep::Continue { offset: (offset + read) as usize },
            )
        },
{
    if read == 0 {
        if offset == 0 {
            return Ok(PrefixStep::CleanEnd);
        }
        return Err(TransportError::UnexpectedEof { operation: "read frame length" });
    }
    if offset + read == 4 {
        Ok(PrefixStep::Complete)
    } else {
        Ok(PrefixStep::Continue { offset: offset + read })
    }
}

/// The frame that `bytes` start with, or why there is none. No bytes at all are a
/// clean end.
pub open spec fn received(bytes: Seq<u8>, max_frame_bytes: usize) -> Result<
    Option<Seq<u8>>,
    Failure,
> {
    let announced = crate::wire::be32_at(bytes, 0) as int;
    if bytes.len() == 0 {
        Ok(None)
    } else if bytes.len() < 4 {
        Err(Failure::UnexpectedEof { operation: "read frame length"@ })
    } else if announced > max_frame_bytes {
        Err(Failure::FrameTooLarge { len: announced, max: max_frame_bytes as int })
    } else if bytes.len() < 4 + announced {
        Err(Failure::Io { operation: "read frame payload"@ })
    } else {
        Ok(Some(bytes.subrange(4, 4 + announced)))
    }
}

/// How many bytes the attempt to receive a frame takes off the stream. A frame
/// that is too long costs its prefix, one that is cut short all there is.
pub open spec fn taken(bytes: Seq<u8>, max_frame_bytes: usize) -> int {
    match received(bytes, max_frame_bytes) {
        Ok(None) => 0,
        Ok(Some(payload)) => 4 + payload.len() as int,
        Err(Failure::FrameTooLarge { .. }) => 4,
        Err(_) => bytes.len() as int,
    }
}

/// Framing of bytes that are in memory.
#[derive(Debug)]
pub struct Connection {
    incoming: Vec<u8>,
    position: usize,
    outgoing: Vec<u8>,
    max_frame_bytes: usize,
}

impl Connection {
    #[verifier::type_invariant]
    spec fn in_bounds(self) -> bool {
        self.position <= self.incoming@.len()
    }

    /// The bytes that have not been received yet.
    pub closed spec fn pending(&self) -> Seq<u8> {
        self.incoming@.skip(self.position as int)
    }

    /// The bytes that have been sent.
    pub closed spec fn sent(&self) -> Seq<u8> {
        self.outgoing@
    }

    pub closed spec fn limit(&self) -> usize {
        self.max_frame_bytes
    }

    /// A connection whose peer has sent `incoming`.
    pub fn new(incoming: Vec<u8>, max_frame_bytes: usize) -> (connection: Self)
        ensures
            connection.pending() == incoming@,
            connection.sent() == Seq::<u8>::empty(),
            connection.limit() == max_frame_bytes,
    {
        let connection = Connection {
            incoming,
            position: 0,
            outgoing: Vec::new(),
            max_frame_bytes,
        };
        assert(connection.pending() =~= incoming@);
        connection
    }

    /// The bytes that have been sent.
    pub fn into_outgoing(self) -> (bytes: Vec<u8>)
        ensures
            bytes@ == self.sent(),
    {
        self.outgoing
    }

    /// Sends one frame. A payload that is too long is refused and nothing is sent.
    pub fn send_frame(&mut self, payload: &[u8]) -> (outcome: Result<(), TransportError>)
        ensures
            final(self).pending() == old(self).pending(),
            final(self).limit() == old(self).limit(),
            if sendable(payload@.len() as int, old(self).limit()) {
                outcome is Ok && final(self).sent() == old(self).sent() + frame_bytes(payload@)
            } else {
                outcome matches Err(error) && error@ == (Failure::FrameTooLarge {
                    len: payload@.len() as int,
                    max: old(self).limit() as int,
                }) && final(self).sent() == old(self).sent()
            },
    {
        proof {
            use_type_invariant(&*self);
        }
        let prefix = match frame_prefix(payload.len(), self.max_frame_bytes) {
            Ok(prefix) => prefix,
            Err(error) => {
                return Err(error);
            },
        };
        let mut outgoing: Vec<u8> = Vec::new();
        std::mem::swap(&mut outgoing, &mut self.outgoing);
        outgoing.extend_from_slice(&prefix);
        outgoing.extend_from_slice(payload);
        self.outgoing = outgoing;
        assert(self.sent() =~= old(self).sent() + frame_bytes(payload@));
        Ok(())
    }

    /// Receives one frame. Nothing left before a frame starts gives `None`.
    pub fn receive_frame(&mut self) -> (frame: Result<Option<Vec<u8>>, TransportError>)
        ensures
            final(self).sent() == old(self).sent(),
            final(self).limit() == old(self).limit(),
            final(self).pending() == old(self).pending().skip(
                taken(old(self).pending(), old(self).limit()),
            ),
            match received(old(self).pending(), old(self).limit()) {
                Ok(Some(payload)) => frame matches Ok(Some(found)) && found@ == payload,
                Ok(None) => frame matches Ok(None),
                Err(failure) => frame matches Err(error) && error@ == failure,
            },
    {
        proof {
            use_type_invariant(&*self);
        }
        let ghost pending = self.pending();
        let start: usize = self.position;
        let end: usize = self.incoming.len();
        let available: usize = if end - start < 4 {
            end - start
        } else {
            4
        };
        assert(pending.skip(0) =~= pending);
        match prefix_step(0, available) {
            Err(error) => {
                return Err(error);
            },
            Ok(PrefixStep::CleanEnd) => {
                return Ok(None);
            },
            Ok(PrefixStep::Continue { offset }) => {
                self.position = end;
                assert(self.pending() =~= pending.skip(pending.len() as int));
                // The stream ends here, so the next read finds nothing.
                return match prefix_step(offset, 0) {
                    Err(error) => Err(error),
                    Ok(_) => Ok(None),
                };
            },
            Ok(PrefixStep::Complete) => {},
        }
        let prefix: [u8; 4] = [
            self.incoming[start],
            self.incoming[start + 1],
            self.incoming[start + 2],
            self.incoming[start + 3],
        ];
        assert(crate::wire::be32_at(prefix@, 0) == crate::wire::be32_at(pending, 0));
        self.position = start + 4;
        assert(self.pending() =~= pending.skip(4));
        let len: usize = match accepted_length(prefix, self.max_frame_bytes) {
            Ok(len) => len,
            Err(error) => {
                return Err(error);
            },
        };
        if len > end - (start + 4) {
            self.position = end;
            assert(self.pending() =~= pending.skip(pending.len() as int));
            return Err(TransportError::Io { operation: "read frame payload" });
        }
        let payload = slice_to_vec(
            slice_subrange(self.incoming.as_slice(), start + 4, start + 4 + len),
        );
        self.position = start + 4 + len;
        assert(payload@ =~= pending.subrange(4, 4 + len));
        assert(self.pending() =~= pending.skip(4 + len));
        Ok(Some(payload))
    }
}

/// A frame that was sent is received as it was, and what follows it is left.
pub proof fn lemma_frames_round_trip(payload: Seq<u8>, rest: Seq<u8>, max_frame_bytes: usize)
    requires
        sendable(payload.len() as int, max_frame_bytes),
    ensures
        ({
            let bytes = frame_bytes(payload) + rest;
            &&& received(bytes, max_frame_bytes) == Ok::<Option<Seq<u8>>, Failure>(Some(payload))
            &&& bytes.skip(taken(bytes, max_frame_bytes)) == rest
        }),
{
    let bytes = frame_bytes(payload) + rest;
    assert(bytes.subrange(0, 4) =~= crate::wire::be32(payload.len() as u32));
    crate::wire::lemma_written_is_read(bytes, 0);
    assert(bytes.subrange(4, 4 + payload.len() as int) =~= payload);
    assert(bytes.skip(4 + payload.len() as int) =~= rest);
}

/// A frame of which only a part arrived is refused, unless nothing of it did, which is
/// a clean end.
pub proof fn lemma_cut_frames_are_refused(payload: Seq<u8>, len: int, max_frame_bytes: usize)
    requires
        sendable(payload.len() as int, max_frame_bytes),
        0 <= len < frame_bytes(payload).len(),
    ensures
        received(frame_bytes(payload).take(len), max_frame_bytes) == if len == 0 {
            Ok::<Option<Seq<u8>>, Failure>(None)
        } else if len < 4 {
            Err(Failure::UnexpectedEof { operation: "read frame length"@ })
        } else {
            Err(Failure::Io { operation: "read frame payload"@ })
        },
{
    let bytes = frame_bytes(payload).take(len);
    if 4 <= len {
        assert(bytes.subrange(0, 4) =~= crate::wire::be32(payload.len() as u32));
        crate::wire::lemma_written_is_read(bytes, 0);
    }
}

/// A frame is read exactly if its four bytes of length and as many bytes of payload are
/// there, and the length is no more than the limit. Too great a length is refused whatever
/// follows. Nothing at all is a clean end, and anything else ends too early. What is taken
/// off is the frame, or the length that was too great, or all there is.
pub proof fn lemma_frames_say_what_their_bytes_do(bytes: Seq<u8>, max_frame_bytes: usize)
    ensures
        ({
            let len = bytes[0] * 16777216 + bytes[1] * 65536 + bytes[2] * 256 + bytes[3];
            match received(bytes, max_frame_bytes) {
                Ok(None) => bytes.len() == 0 && taken(bytes, max_frame_bytes) == 0,
                Ok(Some(payload)) => {
                    &&& bytes.len() >= 4 + len
                    &&& len <= max_frame_bytes
                    &&& payload == bytes.subrange(4, 4 + len)
                    &&& taken(bytes, max_frame_bytes) == 4 + len
                },
                Err(Failure::FrameTooLarge { len: announced, max }) => {
                    &&& bytes.len() >= 4
                    &&& len > max_frame_bytes
                    &&& announced == len && max == max_frame_bytes
                    &&& taken(bytes, max_frame_bytes) == 4
                },
                Err(Failure::UnexpectedEof { .. }) => 0 < bytes.len() < 4 && taken(
                    bytes,
                    max_frame_bytes,
                ) == bytes.len(),
                Err(Failure::Io { .. }) => 4 <= bytes.len() < 4 + len && len <= max_frame_bytes
                    && taken(bytes, max_frame_bytes) == bytes.len(),
                Err(_) => false,
            }
        }),
{
    crate::wire::lemma_digits_are_read(bytes, 0);
}

/// A payload can be sent exactly if it is no longer than the limit and its length fits in
/// four bytes. Its frame is that length, the highest byte first, and the payload.
pub proof fn lemma_frames_hold_their_payload(payload: Seq<u8>, max_frame_bytes: usize)
    ensures
        sendable(payload.len() as int, max_frame_bytes) <==> payload.len() <= max_frame_bytes
            && payload.len() <= 4294967295,
        sendable(payload.len() as int, max_frame_bytes) ==> {
            let bytes = frame_bytes(payload);
            &&& bytes.len() == 4 + payload.len()
            &&& bytes[0] * 16777216 + bytes[1] * 65536 + bytes[2] * 256 + bytes[3] == payload.len()
            &&& bytes.skip(4) == payload
        },
{
    if sendable(payload.len() as int, max_frame_bytes) {
        crate::wire::lemma_bytes_are_digits(0, payload.len() as u32);
        assert(frame_bytes(payload).skip(4) =~= payload);
        assert(frame_bytes(payload).take(4) =~= crate::wire::be32(payload.len() as u32));
        let (bytes, prefix) = (frame_bytes(payload), crate::wire::be32(payload.len() as u32));
        assert(bytes[0] == prefix[0] && bytes[1] == prefix[1] && bytes[2] == prefix[2] && bytes[3]
            == prefix[3]);
    }
}

} // verus!
