//! The envelope of a framed connection.
//!
//! Before any frame, each side sends one preface of fixed size. After that,
//! every frame starts with one header of fixed size. Numbers have their lowest
//! byte first.

use crate::error::ProtocolError;
use crate::text::decimal;
use crate::wire::{read_le16, read_le32};
use vstd::prelude::*;

verus! {

pub type ProtocolVersion = u16;

pub type MessageKind = u16;

pub type StreamId = u32;

pub const INITIAL_PROTOCOL_VERSION: ProtocolVersion = 1;

pub const CURRENT_PROTOCOL_VERSION: ProtocolVersion = INITIAL_PROTOCOL_VERSION;

/// The first bytes that a peer sends: `ONI` and a zero. Anything else, such as
/// the greeting of a remote shell, is refused at once.
pub const PREFACE_MAGIC: [u8; 4] = [79, 78, 73, 0];

/// Size of a preface.
pub const PREFACE_LEN: usize = 12;

/// Size of a frame header.
pub const FRAME_HEADER_LEN: usize = 8;

/// What a protocol error says.
pub enum Fault {
    InvalidVersionRange { min: u16, max: u16 },
    InvalidLimit { field: Seq<char>, value: u32 },
    InvalidMagic { found: Seq<u8> },
    NoSharedVersion { local: (u16, u16), remote: (u16, u16) },
    TruncatedMessage { message: Seq<char>, field: Seq<char> },
}

impl View for ProtocolError {
    type V = Fault;

    open spec fn view(&self) -> Fault {
        match self {
            ProtocolError::InvalidVersionRange { min, max } => Fault::InvalidVersionRange {
                min: *min,
                max: *max,
            },
            ProtocolError::InvalidLimit { field, value } => Fault::InvalidLimit {
                field: field@,
                value: *value,
            },
            ProtocolError::InvalidMagic { found } => Fault::InvalidMagic { found: found@ },
            ProtocolError::NoSharedVersion { local, remote } => Fault::NoSharedVersion {
                local: local@,
                remote: remote@,
            },
            ProtocolError::TruncatedMessage { message, field } => Fault::TruncatedMessage {
                message: message@,
                field: field@,
            },
        }
    }
}

/// The versions from `min` to `max`, both included, that a peer supports.
#[derive(Debug, Clone, Copy, PartialEq, Eq)]
pub struct VersionRange {
    min: ProtocolVersion,
    max: ProtocolVersion,
}

impl View for VersionRange {
    type V = (u16, u16);

    closed spec fn view(&self) -> (u16, u16) {
        (self.min, self.max)
    }
}

impl VersionRange {
    #[verifier::type_invariant]
    spec fn ordered(self) -> bool {
        self.min <= self.max
    }

    /// The range from `min` to `max`.
    pub fn new(min: ProtocolVersion, max: ProtocolVersion) -> (range: Result<Self, ProtocolError>)
        ensures
            if min <= max {
                range matches Ok(found) && found@ == (min, max)
            } else {
                range == Err::<Self, ProtocolError>(ProtocolError::InvalidVersionRange { min, max })
            },
    {
        if min > max {
            return Err(ProtocolError::InvalidVersionRange { min, max });
        }
        Ok(VersionRange { min, max })
    }

    /// The range of one version.
    pub fn exact(version: ProtocolVersion) -> (range: Self)
        ensures
            range@ == (version, version),
    {
        VersionRange { min: version, max: version }
    }

    pub fn min(&self) -> (version: ProtocolVersion)
        ensures
            version == self@.0,
            self@.0 <= self@.1,
    {
        proof {
            use_type_invariant(self);
        }
        self.min
    }

    pub fn max(&self) -> (version: ProtocolVersion)
        ensures
            version == self@.1,
            self@.0 <= self@.1,
    {
        proof {
            use_type_invariant(self);
        }
        self.max
    }

    /// The highest version that this range and `other` share.
    pub fn highest_shared(&self, other: &Self) -> (version: Option<ProtocolVersion>)
        ensures
            version == crate::protocol::shared_version(self@, other@),
    {
        let min: u16 = if self.min >= other.min {
            self.min
        } else {
            other.min
        };
        let max: u16 = if self.max <= other.max {
            self.max
        } else {
            other.max
        };
        if min <= max {
            Some(max)
        } else {
            None
        }
    }

    /// The range in writing, such as `1..=3`.
    pub fn to_string(&self) -> (text: String)
        ensures
            text@ == crate::text::decimal_text(self@.0 as nat) + "..="@
                + crate::text::decimal_text(self@.1 as nat),
    {
        let mut text = decimal(self.min as u64);
        text.append("..=");
        text.append(decimal(self.max as u64).as_str());
        text
    }
}

/// What a peer sends before any frame: the magic, its lowest and its highest
/// version, and the largest frame that it takes.
#[derive(Debug, Clone, Copy, PartialEq, Eq)]
pub struct Preface {
    pub versions: VersionRange,
    pub max_frame_bytes: u32,
}

impl View for Preface {
    type V = (u16, u16, u32);

    open spec fn view(&self) -> (u16, u16, u32) {
        (self.versions@.0, self.versions@.1, self.max_frame_bytes)
    }
}

/// What the peers agreed on.
#[derive(Debug, Clone, Copy, PartialEq, Eq)]
pub struct NegotiatedSession {
    pub version: ProtocolVersion,
    pub max_frame_bytes: u32,
}

/// A preface on the wire.
pub open spec fn preface_bytes(preface: (u16, u16, u32)) -> Seq<u8> {
    PREFACE_MAGIC@ + crate::wire::le16(preface.0) + crate::wire::le16(preface.1)
        + crate::wire::le32(preface.2)
}

/// The fault of a preface that ends inside a field.
pub open spec fn preface_cut_short(field: Seq<char>) -> Result<(u16, u16, u32), Fault> {
    Err(Fault::TruncatedMessage { message: "Preface"@, field })
}

/// The preface that `bytes` start with, or the first thing wrong with it. The
/// numbers are judged only once all of them are there.
pub open spec fn decoded_preface(bytes: Seq<u8>) -> Result<(u16, u16, u32), Fault> {
    let min = crate::wire::le16_at(bytes, 4);
    let max = crate::wire::le16_at(bytes, 6);
    let max_frame_bytes = crate::wire::le32_at(bytes, 8);
    if bytes.len() < 4 {
        preface_cut_short("magic"@)
    } else if bytes.take(4) != PREFACE_MAGIC@ {
        Err(Fault::InvalidMagic { found: bytes.take(4) })
    } else if bytes.len() < 6 {
        preface_cut_short("min-version"@)
    } else if bytes.len() < 8 {
        preface_cut_short("max-version"@)
    } else if bytes.len() < 12 {
        preface_cut_short("max-frame-bytes"@)
    } else if min > max {
        Err(Fault::InvalidVersionRange { min, max })
    } else if max_frame_bytes == 0 {
        Err(Fault::InvalidLimit { field: "max-frame-bytes"@, value: 0 })
    } else {
        Ok((min, max, max_frame_bytes))
    }
}

impl Preface {
    pub const DEFAULT_MAX_FRAME_BYTES: u32 = 8388608;

    /// The preface with the given contents. A peer takes frames of some size.
    pub fn new(versions: VersionRange, max_frame_bytes: u32) -> (preface: Result<
        Self,
        ProtocolError,
    >)
        ensures
            if max_frame_bytes == 0 {
                preface matches Err(error) && error@ == (Fault::InvalidLimit {
                    field: "max-frame-bytes"@,
                    value: 0,
                })
            } else {
                preface == Ok::<Self, ProtocolError>(Preface { versions, max_frame_bytes })
            },
    {
        if max_frame_bytes == 0 {
            return Err(
                ProtocolError::InvalidLimit { field: "max-frame-bytes", value: max_frame_bytes },
            );
        }
        Ok(Preface { versions, max_frame_bytes })
    }

    /// A preface that offers the current protocol version alone.
    pub fn for_current(max_frame_bytes: u32) -> (preface: Result<Self, ProtocolError>)
        ensures
            if max_frame_bytes == 0 {
                preface matches Err(error) && error@ == (Fault::InvalidLimit {
                    field: "max-frame-bytes"@,
                    value: 0,
                })
            } else {
                preface matches Ok(found) && found@ == (
                    CURRENT_PROTOCOL_VERSION,
                    CURRENT_PROTOCOL_VERSION,
                    max_frame_bytes,
                )
            },
    {
        Self::new(VersionRange::exact(CURRENT_PROTOCOL_VERSION), max_frame_bytes)
    }

    /// What two prefaces lead to: the highest version that both know, and frames
    /// that neither finds too large.
    pub fn negotiate(local: &Self, remote: &Self) -> (session: Result<
        NegotiatedSession,
        ProtocolError,
    >)
        ensures
            match crate::protocol::shared_version(local.versions@, remote.versions@) {
                None => session matches Err(error) && error@ == (Fault::NoSharedVersion {
                    local: local.versions@,
                    remote: remote.versions@,
                }),
                Some(version) => session == Ok::<NegotiatedSession, ProtocolError>(
                    NegotiatedSession {
                        version,
                        max_frame_bytes: if local.max_frame_bytes <= remote.max_frame_bytes {
                            local.max_frame_bytes
                        } else {
                            remote.max_frame_bytes
                        },
                    },
                ),
            },
    {
        let version: u16 = match local.versions.highest_shared(&remote.versions) {
            Some(version) => version,
            None => {
                return Err(
                    ProtocolError::NoSharedVersion {
                        local: local.versions,
                        remote: remote.versions,
                    },
                );
            },
        };
        let max_frame_bytes: u32 = if local.max_frame_bytes <= remote.max_frame_bytes {
            local.max_frame_bytes
        } else {
            remote.max_frame_bytes
        };
        Ok(NegotiatedSession { version, max_frame_bytes })
    }

    /// The preface on the wire.
    pub fn encode(&self) -> (encoded: [u8; 12])
        ensures
            encoded@ == preface_bytes(self@),
    {
        let min: u16 = self.versions.min();
        let max: u16 = self.versions.max();
        let size: u32 = self.max_frame_bytes;
        let encoded: [u8; 12] = [
            PREFACE_MAGIC[0],
            PREFACE_MAGIC[1],
            PREFACE_MAGIC[2],
            PREFACE_MAGIC[3],
            (min % 256) as u8,
            (min / 256) as u8,
            (max % 256) as u8,
            (max / 256) as u8,
            (size % 256) as u8,
            (size / 0x100 % 256) as u8,
            (size / 0x1_0000 % 256) as u8,
            (size / 0x100_0000) as u8,
        ];
        assert(encoded@ =~= preface_bytes(self@));
        encoded
    }

    /// The preface that `encoded` starts with.
    pub fn decode(encoded: &[u8]) -> (preface: Result<Self, ProtocolError>)
        ensures
            match decoded_preface(encoded@) {
                Ok(expected) => preface matches Ok(found) && found@ == expected,
                Err(fault) => preface matches Err(error) && error@ == fault,
            },
    {
        if encoded.len() < 4 {
            return Err(Self::cut_short("magic"));
        }
        let found: [u8; 4] = [encoded[0], encoded[1], encoded[2], encoded[3]];
        assert(found@ =~= encoded@.take(4));
        if !(found[0] == PREFACE_MAGIC[0] && found[1] == PREFACE_MAGIC[1] && found[2]
            == PREFACE_MAGIC[2] && found[3] == PREFACE_MAGIC[3]) {
            return Err(ProtocolError::InvalidMagic { found });
        }
        assert(found@ =~= PREFACE_MAGIC@);
        if encoded.len() < 6 {
            return Err(Self::cut_short("min-version"));
        }
        if encoded.len() < 8 {
            return Err(Self::cut_short("max-version"));
        }
        if encoded.len() < 12 {
            return Err(Self::cut_short("max-frame-bytes"));
        }
        let versions = match VersionRange::new(read_le16(encoded, 4), read_le16(encoded, 6)) {
            Ok(versions) => versions,
            Err(error) => {
                return Err(error);
            },
        };
        Self::new(versions, read_le32(encoded, 8))
    }

    fn cut_short(field: &'static str) -> (error: ProtocolError)
        ensures
            error@ == (Fault::TruncatedMessage { message: "Preface"@, field: field@ }),
    {
        ProtocolError::TruncatedMessage { message: "Preface", field }
    }
}

impl Default for Preface {
    fn default() -> (preface: Self)
        ensures
            preface@ == (CURRENT_PROTOCOL_VERSION, CURRENT_PROTOCOL_VERSION, 8388608u32),
    {
        Preface {
            versions: VersionRange::exact(CURRENT_PROTOCOL_VERSION),
            max_frame_bytes: Self::DEFAULT_MAX_FRAME_BYTES,
        }
    }
}

/// What every frame starts with: the kind of message, flags that the kind gives a
/// meaning to, and the stream that it belongs to.
#[derive(Debug, Clone, Copy, PartialEq, Eq)]
pub struct FrameHeader {
    pub kind: MessageKind,
    pub flags: u16,
    pub stream_id: StreamId,
}

/// A frame header on the wire.
pub open spec fn header_bytes(header: FrameHeader) -> Seq<u8> {
    crate::wire::le16(header.kind) + crate::wire::le16(header.flags) + crate::wire::le32(
        header.stream_id,
    )
}

/// The frame header that `bytes` start with, or the field inside which they end.
pub open spec fn decoded_header(bytes: Seq<u8>) -> Result<FrameHeader, Seq<char>> {
    if bytes.len() < 2 {
        Err("kind"@)
    } else if bytes.len() < 4 {
        Err("flags"@)
    } else if bytes.len() < 8 {
        Err("stream-id"@)
    } else {
        Ok(
            FrameHeader {
                kind: crate::wire::le16_at(bytes, 0),
                flags: crate::wire::le16_at(bytes, 2),
                stream_id: crate::wire::le32_at(bytes, 4),
            },
        )
    }
}

impl FrameHeader {
    pub fn new(kind: MessageKind, flags: u16, stream_id: StreamId) -> (header: Self)
        ensures
            header == (FrameHeader { kind, flags, stream_id }),
    {
        FrameHeader { kind, flags, stream_id }
    }

    /// The header on the wire.
    pub fn encode(&self) -> (encoded: [u8; 8])
        ensures
            encoded@ == header_bytes(*self),
    {
        let encoded: [u8; 8] = [
            (self.kind % 256) as u8,
            (self.kind / 256) as u8,
            (self.flags % 256) as u8,
            (self.flags / 256) as u8,
            (self.stream_id % 256) as u8,
            (self.stream_id / 0x100 % 256) as u8,
            (self.stream_id / 0x1_0000 % 256) as u8,
            (self.stream_id / 0x100_0000) as u8,
        ];
        assert(encoded@ =~= header_bytes(*self));
        encoded
    }

    /// The header that `encoded` starts with.
    pub fn decode(encoded: &[u8]) -> (header: Result<Self, ProtocolError>)
        ensures
            match decoded_header(encoded@) {
                Ok(expected) => header == Ok::<Self, ProtocolError>(expected),
                Err(field) => header matches Err(error) && error@ == (Fault::TruncatedMessage {
                    message: "FrameHeader"@,
                    field,
                }),
            },
    {
        let message = "FrameHeader";
        if encoded.len() < 2 {
            return Err(ProtocolError::TruncatedMessage { message, field: "kind" });
        }
        if encoded.len() < 4 {
            return Err(ProtocolError::TruncatedMessage { message, field: "flags" });
        }
        if encoded.len() < 8 {
            return Err(ProtocolError::TruncatedMessage { message, field: "stream-id" });
        }
        Ok(
            FrameHeader {
                kind: read_le16(encoded, 0),
                flags: read_le16(encoded, 2),
                stream_id: read_le32(encoded, 4),
            },
        )
    }
}

/// Decoding an encoded preface gives the preface back.
pub proof fn lemma_prefaces_round_trip(preface: (u16, u16, u32))
    requires
        preface.0 <= preface.1,
        preface.2 > 0,
    ensures
        preface_bytes(preface).len() == PREFACE_LEN,
        preface_bytes(preface).take(4) == PREFACE_MAGIC@,
        decoded_preface(preface_bytes(preface)) == Ok::<(u16, u16, u32), Fault>(preface),
{
    let bytes = preface_bytes(preface);
    assert(bytes.take(4) =~= PREFACE_MAGIC@);
    assert(bytes.subrange(4, 6) =~= crate::wire::le16(preface.0));
    assert(bytes.subrange(6, 8) =~= crate::wire::le16(preface.1));
    assert(bytes.subrange(8, 12) =~= crate::wire::le32(preface.2));
    crate::wire::lemma_written_is_read(bytes, 4);
    crate::wire::lemma_written_is_read(bytes, 6);
    crate::wire::lemma_written_is_read(bytes, 8);
}

/// No preface that is cut off decodes: every strict prefix of an encoded preface is
/// refused as truncated.
pub proof fn lemma_cut_prefaces_are_truncated(preface: (u16, u16, u32), len: int)
    requires
        0 <= len < PREFACE_LEN,
    ensures
        decoded_preface(preface_bytes(preface).take(len)) matches Err(
            Fault::TruncatedMessage { .. },
        ),
{
    let bytes = preface_bytes(preface).take(len);
    if 4 <= len {
        assert(bytes.take(4) =~= PREFACE_MAGIC@);
    }
}

/// Decoding an encoded frame header gives the header back.
pub proof fn lemma_frame_headers_round_trip(header: FrameHeader)
    ensures
        header_bytes(header).len() == FRAME_HEADER_LEN,
        decoded_header(header_bytes(header)) == Ok::<FrameHeader, Seq<char>>(header),
{
    let bytes = header_bytes(header);
    assert(bytes.subrange(0, 2) =~= crate::wire::le16(header.kind));
    assert(bytes.subrange(2, 4) =~= crate::wire::le16(header.flags));
    assert(bytes.subrange(4, 8) =~= crate::wire::le32(header.stream_id));
    crate::wire::lemma_written_is_read(bytes, 0);
    crate::wire::lemma_written_is_read(bytes, 2);
    crate::wire::lemma_written_is_read(bytes, 4);
}

/// No frame header that is cut off decodes.
pub proof fn lemma_cut_frame_headers_are_refused(header: FrameHeader, len: int)
    requires
        0 <= len < FRAME_HEADER_LEN,
    ensures
        decoded_header(header_bytes(header).take(len)) is Err,
{
}

/// A preface on the wire is `ONI` and a zero, both ends of the versions, and the limit. A
/// preface is read exactly if it is all there and makes sense, and says what its bytes do.
/// What stands behind it does not matter.
pub proof fn lemma_prefaces_say_what_their_bytes_do(bytes: Seq<u8>)
    ensures
        ({
            let min = bytes[4] + bytes[5] * 256;
            let max = bytes[6] + bytes[7] * 256;
            let limit = bytes[8] + bytes[9] * 256 + bytes[10] * 65536 + bytes[11] * 16777216;
            let magic = bytes[0] == 79 && bytes[1] == 78 && bytes[2] == 73 && bytes[3] == 0;
            match decoded_preface(bytes) {
                Ok(preface) => {
                    &&& bytes.len() >= 12 && magic
                    &&& preface.0 == min && preface.1 == max && preface.2 == limit
                    &&& min <= max
                    &&& limit > 0
                },
                Err(Fault::TruncatedMessage { .. }) => bytes.len() < 4 || bytes.len() < 12 && magic,
                Err(Fault::InvalidMagic { found }) => bytes.len() >= 4 && !magic && found
                    == bytes.take(4),
                Err(Fault::InvalidVersionRange { min: low, max: high }) => bytes.len() >= 12
                    && magic && low == min && high == max && min > max,
                Err(Fault::InvalidLimit { value, .. }) => bytes.len() >= 12 && magic && min <= max
                    && limit == 0 && value == 0,
                Err(_) => false,
            }
        }),
{
    crate::wire::lemma_digits_are_read(bytes, 4);
    crate::wire::lemma_digits_are_read(bytes, 6);
    crate::wire::lemma_digits_are_read(bytes, 8);
    if bytes.len() >= 4 {
        let found = bytes.take(4);
        if bytes[0] == 79 && bytes[1] == 78 && bytes[2] == 73 && bytes[3] == 0 {
            assert(found =~= PREFACE_MAGIC@);
        } else if found == PREFACE_MAGIC@ {
            assert(found[0] == 79 && found[1] == 78 && found[2] == 73 && found[3] == 0);
        }
    }
}

/// A frame header is read exactly if its eight bytes are there: the kind, the flags and the
/// stream, the lowest byte of each first.
pub proof fn lemma_headers_say_what_their_bytes_do(bytes: Seq<u8>)
    ensures
        match decoded_header(bytes) {
            Ok(header) => {
                &&& bytes.len() >= 8
                &&& header.kind == bytes[0] + bytes[1] * 256
                &&& header.flags == bytes[2] + bytes[3] * 256
                &&& header.stream_id == bytes[4] + bytes[5] * 256 + bytes[6] * 65536 + bytes[7]
                    * 16777216
            },
            Err(_) => bytes.len() < 8,
        },
{
    crate::wire::lemma_digits_are_read(bytes, 0);
    crate::wire::lemma_digits_are_read(bytes, 2);
    crate::wire::lemma_digits_are_read(bytes, 4);
}

} // verus!
